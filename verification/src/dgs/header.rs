//! DGS table headers: `$$ClassName;attr(type[:width]);...`.
//!
//! The type codes are `a` (string), `i` (integer), `r` (real), and `p`
//! (object reference). A vector attribute is declared as `name:SIZEROW(i)`
//! followed by one `name:k(type)` descriptor per declared element; a matrix
//! adds `name:SIZECOL(i)` and `name:i:j(type)` cell descriptors.

use vstd::prelude::*;

use crate::text::{
    chars_eq, chars_of, find_char, first_index_of, nat_text, parse_usize, parse_usize_spec, push_chars,
    push_nat, push_str, split_on, string_of, trim, trim_bounds,
};

verus! {

/// `line N: message`, or the message alone for a failure that no line
/// locates.
pub open spec fn malformed(line: usize, msg: Seq<char>) -> Seq<char> {
    if line == 0 {
        msg
    } else {
        "line "@ + nat_text(line as nat) + ": "@ + msg
    }
}

pub fn malformed_text(line: usize, msg: &Vec<char>) -> (r: String)
    ensures
        r@ == malformed(line, msg@),
{
    if line == 0 {
        string_of(msg)
    } else {
        let mut m: Vec<char> = Vec::new();
        push_str(&mut m, "line ");
        push_nat(&mut m, line as u64);
        push_str(&mut m, ": ");
        push_chars(&mut m, msg);
        string_of(&m)
    }
}

/// The value type of an attribute's cells.
#[derive(Clone, Copy, Debug, PartialEq, Eq, Structural)]
pub enum ScalarType {
    Str,
    Int,
    Real,
    Ref,
}

/// A scalar, a vector of a declared length, or a matrix of a declared
/// column count.
#[derive(Clone, Copy, Debug, PartialEq, Eq, Structural)]
pub enum AttrShape {
    Scalar,
    Vector(u128),
    Matrix(u128),
}

/// One logical attribute of a class table and the row field its cells
/// start at.
pub struct AttrDesc {
    pub name: Vec<char>,
    pub ty: ScalarType,
    pub shape: AttrShape,
    pub field: usize,
}

pub struct AttrDescV {
    pub name: Seq<char>,
    pub ty: ScalarType,
    pub shape: AttrShape,
    pub field: usize,
}

impl View for AttrDesc {
    type V = AttrDescV;

    open spec fn view(&self) -> AttrDescV {
        AttrDescV { name: self.name@, ty: self.ty, shape: self.shape, field: self.field }
    }
}

pub open spec fn attr_views(s: Seq<AttrDesc>) -> Seq<AttrDescV> {
    s.map_values(|a: AttrDesc| a@)
}

/// One class table header, shared by the objects it describes.
pub struct ClassHeader {
    pub class: String,
    pub attrs: Vec<AttrDesc>,
    /// The row field of the `ID` column.
    pub id_field: usize,
    /// The line number of the header line.
    pub line: usize,
}

pub struct ClassHeaderV {
    pub class: Seq<char>,
    pub attrs: Seq<AttrDescV>,
    pub id_field: usize,
    pub line: usize,
}

impl View for ClassHeader {
    type V = ClassHeaderV;

    open spec fn view(&self) -> ClassHeaderV {
        ClassHeaderV { class: self.class@, attrs: attr_views(self.attrs@), id_field: self.id_field, line: self.line }
    }
}

/// The attribute names of a header, in header order.
pub open spec fn names_of(attrs: Seq<AttrDescV>) -> Seq<Seq<char>> {
    attrs.map_values(|a: AttrDescV| a.name)
}

impl ClassHeader {
    /// The attribute names this table declares, in header order.
    pub fn attribute_names(&self) -> (r: Vec<String>)
        ensures
            crate::text::views(r@) == names_of(self@.attrs),
    {
        let mut out: Vec<String> = Vec::new();
        let mut i: usize = 0;
        while i < self.attrs.len()
            invariant
                i <= self.attrs@.len(),
                crate::text::views(out@) == names_of(self@.attrs).take(i as int),
            decreases self.attrs@.len() - i,
        {
            let ghost before = out@;
            out.push(string_of(&self.attrs[i].name));
            proof {
                assert(crate::text::views(out@) =~= crate::text::views(before).push(self.attrs@[i as int].name@));
                assert(names_of(self@.attrs).take(i + 1) =~= names_of(self@.attrs).take(i as int).push(
                    self.attrs@[i as int].name@,
                ));
            }
            i = i + 1;
        }
        assert(names_of(self@.attrs).take(self.attrs@.len() as int) =~= names_of(self@.attrs));
        out
    }

    /// Whether the table declares `name`.
    pub fn declares(&self, name: &str) -> (r: bool)
        ensures
            r == names_of(self@.attrs).contains(name@),
    {
        let target = chars_of(name);
        let mut i: usize = 0;
        while i < self.attrs.len()
            invariant
                i <= self.attrs@.len(),
                target@ == name@,
                forall|k: int| 0 <= k < i ==> self.attrs@[k].name@ != name@,
            decreases self.attrs@.len() - i,
        {
            if chars_eq(&self.attrs[i].name, &target) {
                assert(names_of(self@.attrs)[i as int] == name@);
                return true;
            }
            i = i + 1;
        }
        proof {
            if names_of(self@.attrs).contains(name@) {
                let k = choose|k: int| 0 <= k < names_of(self@.attrs).len() && names_of(self@.attrs)[k] == name@;
                assert(self.attrs@[k].name@ == name@);
            }
        }
        false
    }
}

/// The scalar type a type code names by its first letter.
pub open spec fn type_code(code: Seq<char>) -> Option<ScalarType> {
    if code.len() == 0 {
        None
    } else if code[0] == 'a' {
        Some(ScalarType::Str)
    } else if code[0] == 'i' {
        Some(ScalarType::Int)
    } else if code[0] == 'r' {
        Some(ScalarType::Real)
    } else if code[0] == 'p' {
        Some(ScalarType::Ref)
    } else {
        None
    }
}

/// `s` with its trailing `)` characters dropped.
pub open spec fn strip_close(s: Seq<char>) -> Seq<char>
    decreases s.len(),
{
    if s.len() > 0 && s.last() == ')' {
        strip_close(s.drop_last())
    } else {
        s
    }
}

/// `name(type[:width])` into its trimmed name and scalar type.
pub open spec fn descriptor_spec(d: Seq<char>, class: Seq<char>, line: usize) -> Result<
    (Seq<char>, ScalarType),
    Seq<char>,
> {
    let k = first_index_of(d, '(');
    if k >= d.len() {
        Err(malformed(line, "attribute descriptor `"@ + d + "` in `"@ + class + "` has no type"@))
    } else {
        match type_code(strip_close(d.skip(k + 1 as int))) {
            None => Err(
                malformed(line, "attribute descriptor `"@ + d + "` in `"@ + class + "` has an unknown type code"@),
            ),
            Some(ty) => Ok((trim(d.take(k as int)), ty)),
        }
    }
}

/// `s[lo..hi]` as its own vector.
pub fn slice_of(s: &[char], lo: usize, hi: usize) -> (r: Vec<char>)
    requires
        lo <= hi <= s@.len(),
    ensures
        r@ == s@.subrange(lo as int, hi as int),
{
    let mut out: Vec<char> = Vec::new();
    let mut i = lo;
    while i < hi
        invariant
            lo <= i <= hi <= s@.len(),
            out@ == s@.subrange(lo as int, i as int),
        decreases hi - i,
    {
        out.push(s[i]);
        i = i + 1;
        assert(out@ =~= s@.subrange(lo as int, i as int));
    }
    out
}

/// The trimmed text of `s`.
pub fn trimmed(s: &[char]) -> (r: Vec<char>)
    ensures
        r@ == trim(s@),
{
    let (a, z) = trim_bounds(s, 0, s.len());
    assert(s@.subrange(0, s@.len() as int) =~= s@);
    slice_of(s, a, z)
}

/// Parse one attribute descriptor.
pub fn parse_descriptor(d: &Vec<char>, class: &Vec<char>, line: usize) -> (r: Result<(Vec<char>, ScalarType), String>)
    ensures
        match r {
            Ok((name, ty)) => descriptor_spec(d@, class@, line) == Ok::<(Seq<char>, ScalarType), Seq<char>>((name@, ty)),
            Err(e) => descriptor_spec(d@, class@, line) == Err::<(Seq<char>, ScalarType), Seq<char>>(e@),
        },
{
    let n = d.len();
    assert(d@.subrange(0, n as int) =~= d@);
    let k = find_char(d, 0, n, '(');
    if k == n {
        let mut m: Vec<char> = Vec::new();
        push_str(&mut m, "attribute descriptor `");
        push_chars(&mut m, d);
        push_str(&mut m, "` in `");
        push_chars(&mut m, class);
        push_str(&mut m, "` has no type");
        return Err(malformed_text(line, &m));
    }
    let mut z = n;
    while z > k + 1 && d[z - 1] == ')'
        invariant
            k + 1 <= z <= n == d@.len(),
            strip_close(d@.skip(k + 1)) == strip_close(d@.subrange(k + 1, z as int)),
        decreases z,
    {
        assert(d@.subrange(k + 1, z as int).drop_last() =~= d@.subrange(k + 1, z - 1));
        z = z - 1;
    }
    proof {
        assert(d@.skip(k + 1) =~= d@.subrange(k + 1, n as int));
    }
    let code = slice_of(d, k + 1, z);
    let ty = if code.len() == 0 {
        None
    } else if code[0] == 'a' {
        Some(ScalarType::Str)
    } else if code[0] == 'i' {
        Some(ScalarType::Int)
    } else if code[0] == 'r' {
        Some(ScalarType::Real)
    } else if code[0] == 'p' {
        Some(ScalarType::Ref)
    } else {
        None
    };
    match ty {
        None => {
            let mut m: Vec<char> = Vec::new();
            push_str(&mut m, "attribute descriptor `");
            push_chars(&mut m, d);
            push_str(&mut m, "` in `");
            push_chars(&mut m, class);
            push_str(&mut m, "` has an unknown type code");
            Err(malformed_text(line, &m))
        },
        Some(ty) => {
            let name = slice_of(d, 0, k);
            assert(d@.take(k as int) =~= d@.subrange(0, k as int));
            Ok((trimmed(&name), ty))
        },
    }
}

/// The descriptors parsed in order; an empty descriptor declares nothing
/// but occupies its field. The first malformed descriptor fails.
pub open spec fn parsed_spec(ds: Seq<Seq<char>>, class: Seq<char>, line: usize) -> Result<
    Seq<(Seq<char>, ScalarType)>,
    Seq<char>,
>
    decreases ds.len(),
{
    if ds.len() == 0 {
        Ok(Seq::empty())
    } else {
        match parsed_spec(ds.drop_last(), class, line) {
            Err(e) => Err(e),
            Ok(ps) => if ds.last().len() == 0 {
                Ok(ps.push((Seq::empty(), ScalarType::Str)))
            } else {
                match descriptor_spec(ds.last(), class, line) {
                    Err(e) => Err(e),
                    Ok(p) => Ok(ps.push(p)),
                }
            },
        }
    }
}

/// The `row[:col]` parts of a cell descriptor name `base:row[:col]`.
pub open spec fn cell_parts(name: Seq<char>, base: Seq<char>) -> Option<Seq<Seq<char>>> {
    if name.len() > base.len() && name.take(base.len() as int) == base && name[base.len() as int] == ':' {
        Some(split_on(name.skip(base.len() + 1 as int), ':'))
    } else {
        None
    }
}

/// Where the cell descriptors of a vector or matrix end, the declared row
/// and column counts the last of them gives, and their cell type.
pub struct CellScan {
    pub next: int,
    pub rows: nat,
    pub cols: nat,
    pub ty: ScalarType,
}

pub open spec fn scan_cells(
    ps: Seq<(Seq<char>, ScalarType)>,
    base: Seq<char>,
    is_matrix: bool,
    next: int,
    rows: nat,
    cols: nat,
    ty: ScalarType,
) -> CellScan
    decreases ps.len() - next,
{
    if next < 0 || next >= ps.len() {
        CellScan { next, rows, cols, ty }
    } else {
        match cell_parts(ps[next].0, base) {
            None => CellScan { next, rows, cols, ty },
            Some(parts) => {
                let row = parse_usize_spec(parts[0]);
                let col = if parts.len() > 1 {
                    parse_usize_spec(parts[1])
                } else {
                    None
                };
                if !is_matrix && row is Some && col is None {
                    scan_cells(ps, base, is_matrix, next + 1, (row->0 + 1) as nat, cols, ps[next].1)
                } else if is_matrix && row is Some && col is Some {
                    scan_cells(ps, base, is_matrix, next + 1, (row->0 + 1) as nat, (col->0 + 1) as nat, ps[next].1)
                } else {
                    CellScan { next, rows, cols, ty }
                }
            },
        }
    }
}

pub proof fn lemma_scan_cells(
    ps: Seq<(Seq<char>, ScalarType)>,
    base: Seq<char>,
    is_matrix: bool,
    next: int,
    rows: nat,
    cols: nat,
    ty: ScalarType,
)
    requires
        0 <= next,
        rows <= usize::MAX + 1,
        cols <= usize::MAX + 1,
    ensures
        next <= scan_cells(ps, base, is_matrix, next, rows, cols, ty).next,
        next < ps.len() ==> scan_cells(ps, base, is_matrix, next, rows, cols, ty).next <= ps.len(),
        scan_cells(ps, base, is_matrix, next, rows, cols, ty).rows <= usize::MAX + 1,
        scan_cells(ps, base, is_matrix, next, rows, cols, ty).cols <= usize::MAX + 1,
    decreases ps.len() - next,
{
    if 0 <= next < ps.len() {
        if let Some(parts) = cell_parts(ps[next].0, base) {
            let row = parse_usize_spec(parts[0]);
            let col = if parts.len() > 1 {
                parse_usize_spec(parts[1])
            } else {
                None
            };
            if !is_matrix && row is Some && col is None {
                lemma_scan_cells(ps, base, is_matrix, next + 1, (row->0 + 1) as nat, cols, ps[next].1);
            } else if is_matrix && row is Some && col is Some {
                lemma_scan_cells(ps, base, is_matrix, next + 1, (row->0 + 1) as nat, (col->0 + 1) as nat, ps[next].1);
            }
        }
    }
}

/// `name` ends with `:SIZEROW`.
pub open spec fn size_row(name: Seq<char>) -> bool {
    name.len() >= 8 && name.skip(name.len() - 8) == ":SIZEROW"@
}

/// The attributes of a header from descriptor `index` on, and the field
/// of its `ID` column.
pub open spec fn build_attrs(
    ps: Seq<(Seq<char>, ScalarType)>,
    class: Seq<char>,
    line: usize,
    index: int,
    attrs: Seq<AttrDescV>,
    id: Option<usize>,
) -> Result<(Seq<AttrDescV>, Option<usize>), Seq<char>>
    decreases ps.len() - index,
{
    if index < 0 || index >= ps.len() {
        Ok((attrs, id))
    } else {
        let name = ps[index].0;
        let ty = ps[index].1;
        if name.len() == 0 {
            build_attrs(ps, class, line, index + 1, attrs, id)
        } else if name == "ID"@ {
            build_attrs(ps, class, line, index + 1, attrs, Some(index as usize))
        } else if size_row(name) {
            let base = name.take(name.len() - 8);
            let is_matrix = index + 1 < ps.len() && ps[index + 1].0 == base + ":SIZECOL"@;
            let start = if is_matrix {
                index + 2
            } else {
                index + 1
            };
            let c = scan_cells(
                ps,
                base,
                is_matrix,
                start,
                0,
                0,
                if is_matrix {
                    ScalarType::Real
                } else {
                    ScalarType::Int
                },
            );
            proof {
                lemma_scan_cells(
                    ps,
                    base,
                    is_matrix,
                    start,
                    0,
                    0,
                    if is_matrix {
                        ScalarType::Real
                    } else {
                        ScalarType::Int
                    },
                );
            }
            if is_matrix && c.ty != ScalarType::Real {
                Err(malformed(line, "matrix `"@ + class + "."@ + base + "` declares non real cells"@))
            } else {
                build_attrs(
                    ps,
                    class,
                    line,
                    c.next,
                    attrs.push(
                        AttrDescV {
                            name: base,
                            ty: c.ty,
                            shape: if is_matrix {
                                AttrShape::Matrix(c.cols as u128)
                            } else {
                                AttrShape::Vector(c.rows as u128)
                            },
                            field: index as usize,
                        },
                    ),
                    id,
                )
            }
        } else {
            build_attrs(
                ps,
                class,
                line,
                index + 1,
                attrs.push(AttrDescV { name, ty, shape: AttrShape::Scalar, field: index as usize }),
                id,
            )
        }
    }
}

/// A table header from its class and trimmed descriptors.
pub open spec fn header_spec(class: Seq<char>, ds: Seq<Seq<char>>, line: usize) -> Result<ClassHeaderV, Seq<char>> {
    match parsed_spec(ds, class, line) {
        Err(e) => Err(e),
        Ok(ps) => match build_attrs(ps, class, line, 0, Seq::empty(), None) {
            Err(e) => Err(e),
            Ok((attrs, id)) => match id {
                None => Err(
                    malformed(
                        line,
                        "table `"@ + class + "` declares no `ID` column; only DGS 5.0 ASCII is read"@,
                    ),
                ),
                Some(f) => Ok(ClassHeaderV { class, attrs, id_field: f, line }),
            },
        },
    }
}

pub open spec fn pair_views(ps: Seq<(Vec<char>, ScalarType)>) -> Seq<(Seq<char>, ScalarType)> {
    ps.map_values(|p: (Vec<char>, ScalarType)| (p.0@, p.1))
}

pub open spec fn text_views(ds: Seq<Vec<char>>) -> Seq<Seq<char>> {
    ds.map_values(|d: Vec<char>| d@)
}

/// Parse the descriptors in order.
fn parse_all(ds: &Vec<Vec<char>>, class: &Vec<char>, line: usize) -> (r: Result<Vec<(Vec<char>, ScalarType)>, String>)
    ensures
        match r {
            Ok(ps) => parsed_spec(text_views(ds@), class@, line) == Ok::<Seq<(Seq<char>, ScalarType)>, Seq<char>>(
                pair_views(ps@),
            ),
            Err(e) => parsed_spec(text_views(ds@), class@, line) == Err::<Seq<(Seq<char>, ScalarType)>, Seq<char>>(e@),
        },
{
    let ghost all = text_views(ds@);
    let mut ps: Vec<(Vec<char>, ScalarType)> = Vec::new();
    let mut i: usize = 0;
    assert(all.take(0) =~= Seq::<Seq<char>>::empty());
    assert(pair_views(ps@) =~= Seq::<(Seq<char>, ScalarType)>::empty());
    while i < ds.len()
        invariant
            i <= ds@.len(),
            all == text_views(ds@),
            parsed_spec(all.take(i as int), class@, line) == Ok::<Seq<(Seq<char>, ScalarType)>, Seq<char>>(
                pair_views(ps@),
            ),
        decreases ds@.len() - i,
    {
        proof {
            assert(all.take(i + 1).drop_last() =~= all.take(i as int));
            assert(all.take(i + 1).last() == ds@[i as int]@);
        }
        let ghost before = ps@;
        if ds[i].len() == 0 {
            ps.push((Vec::new(), ScalarType::Str));
            assert(pair_views(ps@) =~= pair_views(before).push((Seq::<char>::empty(), ScalarType::Str)));
        } else {
            match parse_descriptor(&ds[i], class, line) {
                Ok(p) => {
                    let ghost pv = (p.0@, p.1);
                    ps.push(p);
                    assert(pair_views(ps@) =~= pair_views(before).push(pv));
                },
                Err(e) => {
                    proof {
                        lemma_parsed_fails(all, class@, line, i as int + 1);
                    }
                    return Err(e);
                },
            }
        }
        i = i + 1;
    }
    assert(all.take(ds@.len() as int) =~= all);
    Ok(ps)
}

proof fn lemma_parsed_fails(ds: Seq<Seq<char>>, class: Seq<char>, line: usize, k: int)
    requires
        0 <= k <= ds.len(),
        parsed_spec(ds.take(k), class, line) is Err,
    ensures
        parsed_spec(ds, class, line) == parsed_spec(ds.take(k), class, line),
    decreases ds.len() - k,
{
    if k < ds.len() {
        assert(ds.take(k + 1).drop_last() =~= ds.take(k));
        lemma_parsed_fails(ds, class, line, k + 1);
    } else {
        assert(ds.take(k) =~= ds);
    }
}

/// Whether `name` is a cell descriptor `base:...`; its `row[:col]` parts'
/// values then.
fn cell_numbers(name: &Vec<char>, base: &Vec<char>) -> (r: Option<(Option<usize>, Option<usize>)>)
    ensures
        match cell_parts(name@, base@) {
            None => r is None,
            Some(parts) => r == Some(
                (
                    parse_usize_spec(parts[0]),
                    if parts.len() > 1 {
                        parse_usize_spec(parts[1])
                    } else {
                        None
                    },
                ),
            ),
        },
{
    let n = name.len();
    let bl = base.len();
    if n <= bl {
        return None;
    }
    let head = slice_of(name, 0, bl);
    if !chars_eq(&head, base) || name[bl] != ':' {
        assert(name@.take(bl as int) =~= head@);
        return None;
    }
    assert(name@.take(bl as int) =~= head@);
    let ghost rest = name@.skip(bl + 1);
    assert(rest =~= name@.subrange(bl + 1, n as int));
    let e1 = find_char(name, bl + 1, n, ':');
    let row = parse_usize(name, bl + 1, e1);
    if e1 == n {
        proof {
            crate::text::lemma_split_on_last(name@, ':', bl + 1, n as int);
        }
        return Some((row, None));
    }
    proof {
        crate::text::lemma_split_on_step(name@, ':', bl + 1, e1 as int, n as int);
    }
    let e2 = find_char(name, e1 + 1, n, ':');
    proof {
        if e2 == n {
            crate::text::lemma_split_on_last(name@, ':', e1 + 1, n as int);
        } else {
            crate::text::lemma_split_on_step(name@, ':', e1 + 1, e2 as int, n as int);
        }
    }
    let col = parse_usize(name, e1 + 1, e2);
    Some((row, col))
}

/// The exec form of `scan_cells`.
fn scan_cells_exec(
    ps: &Vec<(Vec<char>, ScalarType)>,
    base: &Vec<char>,
    is_matrix: bool,
    next: usize,
    rows: u128,
    cols: u128,
    ty: ScalarType,
) -> (r: (usize, u128, u128, ScalarType))
    requires
        next <= ps@.len(),
        rows <= usize::MAX + 1,
        cols <= usize::MAX + 1,
    ensures
        ({
            let c = scan_cells(pair_views(ps@), base@, is_matrix, next as int, rows as nat, cols as nat, ty);
            r.0 == c.next && r.1 == c.rows && r.2 == c.cols && r.3 == c.ty
        }),
    decreases ps@.len() - next,
{
    let ghost pv = pair_views(ps@);
    if next >= ps.len() {
        return (next, rows, cols, ty);
    }
    assert(pv[next as int] == (ps@[next as int].0@, ps@[next as int].1));
    match cell_numbers(&ps[next].0, base) {
        None => (next, rows, cols, ty),
        Some((row, col)) => {
            if !is_matrix && row.is_some() && col.is_none() {
                let rv = row.unwrap();
                scan_cells_exec(ps, base, is_matrix, next + 1, rv as u128 + 1, cols, ps[next].1)
            } else if is_matrix && row.is_some() && col.is_some() {
                let rv = row.unwrap();
                let cv = col.unwrap();
                scan_cells_exec(ps, base, is_matrix, next + 1, rv as u128 + 1, cv as u128 + 1, ps[next].1)
            } else {
                (next, rows, cols, ty)
            }
        },
    }
}

fn ends_with_size_row(name: &Vec<char>) -> (r: bool)
    ensures
        r == size_row(name@),
{
    let n = name.len();
    if n < 8 {
        return false;
    }
    let r = crate::text::range_is(name, n - 8, n, ":SIZEROW");
    assert(name@.skip(n - 8) =~= name@.subrange(n - 8, n as int));
    r
}

/// The exec form of `build_attrs`.
fn build_attrs_exec(
    ps: &Vec<(Vec<char>, ScalarType)>,
    class: &Vec<char>,
    line: usize,
    index: usize,
    attrs: Vec<AttrDesc>,
    id: Option<usize>,
) -> (r: Result<(Vec<AttrDesc>, Option<usize>), String>)
    requires
        index <= ps@.len(),
    ensures
        match r {
            Ok((a, f)) => build_attrs(pair_views(ps@), class@, line, index as int, attr_views(attrs@), id) == Ok::<
                (Seq<AttrDescV>, Option<usize>),
                Seq<char>,
            >((attr_views(a@), f)),
            Err(e) => build_attrs(pair_views(ps@), class@, line, index as int, attr_views(attrs@), id) == Err::<
                (Seq<AttrDescV>, Option<usize>),
                Seq<char>,
            >(e@),
        },
    decreases ps@.len() - index,
{
    let ghost pv = pair_views(ps@);
    if index >= ps.len() {
        return Ok((attrs, id));
    }
    assert(pv[index as int] == (ps@[index as int].0@, ps@[index as int].1));
    let name = &ps[index].0;
    let ty = ps[index].1;
    if name.len() == 0 {
        return build_attrs_exec(ps, class, line, index + 1, attrs, id);
    }
    let id_name = chars_of("ID");
    if chars_eq(name, &id_name) {
        return build_attrs_exec(ps, class, line, index + 1, attrs, Some(index));
    }
    let mut attrs = attrs;
    let ghost before = attr_views(attrs@);
    if ends_with_size_row(name) {
        let base = slice_of(name, 0, name.len() - 8);
        assert(base@ =~= name@.take(name@.len() - 8));
        let mut col_name = base.clone();
        assert(col_name@ == base@);
        push_str(&mut col_name, ":SIZECOL");
        let is_matrix = index + 1 < ps.len() && chars_eq(&ps[index + 1].0, &col_name);
        proof {
            if index + 1 < ps@.len() {
                assert(pv[index + 1] == (ps@[index + 1].0@, ps@[index + 1].1));
            }
        }
        let start = if is_matrix {
            if index + 2 <= ps.len() {
                index + 2
            } else {
                ps.len()
            }
        } else {
            index + 1
        };
        let (next, rows, cols, cell_ty) = scan_cells_exec(
            ps,
            &base,
            is_matrix,
            start,
            0,
            0,
            if is_matrix {
                ScalarType::Real
            } else {
                ScalarType::Int
            },
        );
        proof {
            lemma_scan_cells(
                pv,
                base@,
                is_matrix,
                start as int,
                0,
                0,
                if is_matrix {
                    ScalarType::Real
                } else {
                    ScalarType::Int
                },
            );
        }
        if is_matrix && cell_ty != ScalarType::Real {
            let mut m: Vec<char> = Vec::new();
            push_str(&mut m, "matrix `");
            push_chars(&mut m, class);
            push_str(&mut m, ".");
            push_chars(&mut m, &base);
            push_str(&mut m, "` declares non real cells");
            return Err(malformed_text(line, &m));
        }
        let a = AttrDesc {
            name: base,
            ty: cell_ty,
            shape: if is_matrix {
                AttrShape::Matrix(cols)
            } else {
                AttrShape::Vector(rows)
            },
            field: index,
        };
        let ghost av = a@;
        attrs.push(a);
        assert(attr_views(attrs@) =~= before.push(av));
        build_attrs_exec(ps, class, line, next, attrs, id)
    } else {
        let a = AttrDesc { name: name.clone(), ty, shape: AttrShape::Scalar, field: index };
        let ghost av = a@;
        attrs.push(a);
        assert(attr_views(attrs@) =~= before.push(av));
        build_attrs_exec(ps, class, line, index + 1, attrs, id)
    }
}

/// Parse a table header from its class and trimmed descriptors.
pub fn parse_header(class: &Vec<char>, ds: &Vec<Vec<char>>, line: usize) -> (r: Result<ClassHeader, String>)
    ensures
        match r {
            Ok(h) => header_spec(class@, text_views(ds@), line) == Ok::<ClassHeaderV, Seq<char>>(h@),
            Err(e) => header_spec(class@, text_views(ds@), line) == Err::<ClassHeaderV, Seq<char>>(e@),
        },
{
    let ps = match parse_all(ds, class, line) {
        Ok(ps) => ps,
        Err(e) => {
            return Err(e);
        },
    };
    let start: Vec<AttrDesc> = Vec::new();
    assert(attr_views(start@) =~= Seq::<AttrDescV>::empty());
    let (attrs, id) = match build_attrs_exec(&ps, class, line, 0, start, None) {
        Ok(x) => x,
        Err(e) => {
            return Err(e);
        },
    };
    match id {
        None => {
            let mut m: Vec<char> = Vec::new();
            push_str(&mut m, "table `");
            push_chars(&mut m, class);
            push_str(&mut m, "` declares no `ID` column; only DGS 5.0 ASCII is read");
            Err(malformed_text(line, &m))
        },
        Some(f) => Ok(ClassHeader { class: string_of(class), attrs, id_field: f, line }),
    }
}

} // verus!
