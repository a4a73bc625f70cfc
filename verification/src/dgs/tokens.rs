//! The DGS V5 ASCII table reader and the document it fills.
//!
//! A DGS file is a sequence of class tables. Each table opens with a header
//! line `$$ClassName;attr(type[:width]);...` and continues with one row per
//! object, fields separated by semicolons. The `$$General` table carries the
//! format version; only `5.0` is read. Lines opening with `*` are comments.

use vstd::prelude::*;
use vstd::utf8::encode_utf8;

use super::header::{
    header_spec, malformed, malformed_text, parse_header, slice_of, text_views, trimmed, ClassHeader,
    ClassHeaderV,
};
use super::values::{opt_value_views, read_values, values_read, DgsValue, DgsValueV};
use crate::ieee_cdf::model::Line;
use crate::ieee_cdf::scan::{line_at, line_chars, line_text, lines_from};
use crate::text::{
    chars_eq, chars_of, find_char, parse_i64, parse_i64_spec, push_chars, push_str, split_on, starts_with,
    string_of, trim, trim_bounds, trim_start, trim_start_at,
};

verus! {

/// `str::trim` of a field, then one pair of enclosing double quotes
/// dropped.
pub open spec fn unquote(f: Seq<char>) -> Seq<char> {
    let t = trim(f);
    if t.len() >= 2 && t[0] == '"' && t.last() == '"' {
        t.subrange(1, t.len() - 1)
    } else {
        t
    }
}

/// The fields of a row from offset `i` on, the current field starting at
/// `start`, `q` telling whether a quoted span is open, after the fields in
/// `acc`.
pub open spec fn split_from(s: Seq<char>, start: int, i: int, q: bool, acc: Seq<Seq<char>>) -> Seq<Seq<char>>
    decreases s.len() - i,
{
    if i >= s.len() {
        acc.push(unquote(s.subrange(start, s.len() as int)))
    } else if s[i] == '"' {
        split_from(s, start, i + 1, !q, acc)
    } else if s[i] == ';' && !q {
        split_from(s, i + 1, i + 1, q, acc.push(unquote(s.subrange(start, i))))
    } else {
        split_from(s, start, i + 1, q, acc)
    }
}

/// A row split on `;`, a double quoted span kept as one field that may hold
/// semicolons. Quotes are not escaped: a `"` opens a span and the next `"`
/// closes it.
pub open spec fn split_fields(s: Seq<char>) -> Seq<Seq<char>> {
    split_from(s, 0, 0, false, Seq::empty())
}

fn unquote_exec(s: &Vec<char>, lo: usize, hi: usize) -> (r: Vec<char>)
    requires
        lo <= hi <= s@.len(),
    ensures
        r@ == unquote(s@.subrange(lo as int, hi as int)),
{
    let (a, z) = trim_bounds(s, lo, hi);
    if z - a >= 2 && s[a] == '"' && s[z - 1] == '"' {
        let r = slice_of(s, a + 1, z - 1);
        proof {
            let t = s@.subrange(a as int, z as int);
            assert(t[0] == s@[a as int]);
            assert(t.last() == s@[z - 1]);
            assert(t.subrange(1, t.len() - 1) =~= r@);
        }
        r
    } else {
        let r = slice_of(s, a, z);
        proof {
            let t = s@.subrange(a as int, z as int);
            if t.len() >= 2 {
                assert(t[0] == s@[a as int]);
                assert(t.last() == s@[z - 1]);
            }
        }
        r
    }
}

/// Split a row into its fields.
pub fn split_row(s: &Vec<char>) -> (r: Vec<Vec<char>>)
    ensures
        text_views(r@) == split_fields(s@),
{
    let ghost whole = split_fields(s@);
    let mut out: Vec<Vec<char>> = Vec::new();
    let mut start: usize = 0;
    let mut q = false;
    let mut i: usize = 0;
    assert(text_views(out@) =~= Seq::<Seq<char>>::empty());
    while i < s.len()
        invariant
            start <= i <= s@.len(),
            whole == split_fields(s@),
            whole == split_from(s@, start as int, i as int, q, text_views(out@)),
        decreases s@.len() - i,
    {
        if s[i] == '"' {
            q = !q;
        } else if s[i] == ';' && !q {
            let f = unquote_exec(s, start, i);
            let ghost before = out@;
            let ghost fv = f@;
            out.push(f);
            assert(text_views(out@) =~= text_views(before).push(fv));
            start = i + 1;
        }
        i = i + 1;
    }
    let f = unquote_exec(s, start, s.len());
    let ghost before = out@;
    let ghost fv = f@;
    out.push(f);
    assert(text_views(out@) =~= text_views(before).push(fv));
    out
}

/// One object row: the index of its class table, its id, its line, the byte
/// range of its trimmed text, and its values in header order.
pub struct DgsObject {
    pub id: i64,
    pub class_index: usize,
    pub line: usize,
    pub byte_start: usize,
    pub byte_end: usize,
    pub values: Vec<Option<DgsValue>>,
}

pub struct DgsObjectV {
    pub id: i64,
    pub class_index: usize,
    pub line: usize,
    pub byte_start: usize,
    pub byte_end: usize,
    pub values: Seq<Option<DgsValueV>>,
}

impl View for DgsObject {
    type V = DgsObjectV;

    open spec fn view(&self) -> DgsObjectV {
        DgsObjectV {
            id: self.id,
            class_index: self.class_index,
            line: self.line,
            byte_start: self.byte_start,
            byte_end: self.byte_end,
            values: opt_value_views(self.values@),
        }
    }
}

pub open spec fn object_views(s: Seq<DgsObject>) -> Seq<DgsObjectV> {
    s.map_values(|o: DgsObject| o@)
}

pub open spec fn header_views(s: Seq<ClassHeader>) -> Seq<ClassHeaderV> {
    s.map_values(|h: ClassHeader| h@)
}

pub open spec fn general_views(s: Seq<(String, String)>) -> Seq<(Seq<char>, Seq<char>)> {
    s.map_values(|p: (String, String)| (p.0@, p.1@))
}

/// The state of a read after a number of lines.
pub struct DgsState {
    pub general: Seq<(Seq<char>, Seq<char>)>,
    pub in_general: bool,
    pub version_seen: bool,
    pub current: Option<usize>,
    pub objects: Seq<DgsObjectV>,
    pub classes: Seq<ClassHeaderV>,
    pub comma: bool,
}

pub open spec fn start_state() -> DgsState {
    DgsState {
        general: Seq::empty(),
        in_general: false,
        version_seen: false,
        current: None,
        objects: Seq::empty(),
        classes: Seq::empty(),
        comma: false,
    }
}

/// Every class index points at a table.
pub open spec fn state_wf(st: DgsState) -> bool {
    &&& st.current matches Some(ci) ==> ci < st.classes.len()
    &&& forall|k: int| 0 <= k < st.objects.len() ==> (#[trigger] st.objects[k]).class_index < st.classes.len()
}

/// A table header line, its `$$` dropped.
pub open spec fn open_table(st: DgsState, header: Seq<char>, line: usize) -> Result<DgsState, Seq<char>> {
    let parts = split_on(header, ';');
    let class = trim(parts[0]);
    if class == "General"@ {
        Ok(DgsState { in_general: true, current: None, ..st })
    } else if class.len() == 0 {
        Err(malformed(line, "a table header names no class"@))
    } else {
        match header_spec(class, parts.drop_first().map_values(|p: Seq<char>| trim(p)), line) {
            Err(e) => Err(e),
            Ok(h) => Ok(
                DgsState {
                    in_general: false,
                    classes: st.classes.push(h),
                    current: Some(st.classes.len() as usize),
                    ..st
                },
            ),
        }
    }
}

/// A data row: a `$$General` row, or an object of the current table.
pub open spec fn read_row(st: DgsState, row: Seq<char>, line: usize, start: usize, end: usize) -> Result<
    DgsState,
    Seq<char>,
> {
    let fs = split_fields(row);
    if st.in_general {
        if fs.len() < 3 {
            Err(malformed(line, "a `$$General` row needs three fields"@))
        } else {
            let descr = trim(fs[1]);
            let value = trim(fs[2]);
            if descr == "Version"@ && value != "5.0"@ {
                Err(
                    malformed(
                        line,
                        "DGS version "@ + value
                            + " is not read; only DGS 5.0 ASCII is read. Export the project again with the DGS V5 export definitions"@,
                    ),
                )
            } else {
                Ok(
                    DgsState {
                        general: st.general.push((descr, value)),
                        version_seen: st.version_seen || descr == "Version"@,
                        ..st
                    },
                )
            }
        }
    } else {
        match st.current {
            None => Err(malformed(line, "a data row precedes every table header"@)),
            Some(ci) => {
                let h = st.classes[ci as int];
                let id_text = if h.id_field < fs.len() {
                    trim(fs[h.id_field as int])
                } else {
                    Seq::empty()
                };
                match parse_i64_spec(id_text) {
                    None => Err(
                        malformed(
                            line,
                            "object id `"@ + id_text + "` in `"@ + h.class + "` is not an integer"@,
                        ),
                    ),
                    Some(id) => {
                        let (c2, r) = values_read(st.comma, h.attrs, fs, line, h.class, 0, Seq::empty());
                        match r {
                            Err(e) => Err(e),
                            Ok(vals) => Ok(
                                DgsState {
                                    objects: st.objects.push(
                                        DgsObjectV {
                                            id,
                                            class_index: ci,
                                            line,
                                            byte_start: start,
                                            byte_end: end,
                                            values: vals,
                                        },
                                    ),
                                    comma: c2,
                                    ..st
                                },
                            ),
                        }
                    },
                }
            },
        }
    }
}

/// One line of a DGS file: blank lines and `*` comments are skipped, a
/// `$$` line opens a table, any other line is a row. A row's byte range
/// is that of its trimmed text.
#[verifier::opaque]
pub open spec fn dgs_line(b: Seq<u8>, st: DgsState, line: Line) -> Result<DgsState, Seq<char>> {
    let text = line_text(b, line);
    let t = trim(text);
    if t.len() == 0 || t[0] == '*' {
        Ok(st)
    } else if starts_with(t, "$$"@) {
        open_table(st, t.skip(2), line.number)
    } else {
        let lead = text.len() - trim_start(text).len();
        let bs = line.start + encode_utf8(text.take(lead)).len();
        read_row(st, t, line.number, bs as usize, (bs + encode_utf8(t).len()) as usize)
    }
}

/// The lines of `ls` read in order; the first failure ends the read.
pub open spec fn dgs_scan(b: Seq<u8>, st: DgsState, ls: Seq<Line>) -> Result<DgsState, Seq<char>>
    decreases ls.len(),
{
    if ls.len() == 0 {
        Ok(st)
    } else {
        match dgs_scan(b, st, ls.drop_last()) {
            Err(e) => Err(e),
            Ok(s) => dgs_line(b, s, ls.last()),
        }
    }
}

/// The decoded file: the `$$General` rows, every object in file order, and
/// the class tables in header order.
pub struct DgsDocument {
    /// `$$General` rows as `(Descr, Val)`.
    pub general: Vec<(String, String)>,
    pub objects: Vec<DgsObject>,
    pub classes: Vec<ClassHeader>,
}

pub struct DgsDocumentV {
    pub general: Seq<(Seq<char>, Seq<char>)>,
    pub objects: Seq<DgsObjectV>,
    pub classes: Seq<ClassHeaderV>,
}

impl View for DgsDocument {
    type V = DgsDocumentV;

    open spec fn view(&self) -> DgsDocumentV {
        DgsDocumentV {
            general: general_views(self.general@),
            objects: object_views(self.objects@),
            classes: header_views(self.classes@),
        }
    }
}

/// A DGS read of the text `b`: the document, or the message of the first
/// structural failure.
pub open spec fn parse_spec(b: Seq<u8>) -> Result<DgsDocumentV, Seq<char>> {
    match dgs_scan(b, start_state(), lines_from(b, 0, 1)) {
        Err(e) => Err(e),
        Ok(st) => if !st.version_seen {
            Err("no `$$General` table states the DGS version; only DGS 5.0 ASCII is read"@)
        } else {
            Ok(DgsDocumentV { general: st.general, objects: st.objects, classes: st.classes })
        },
    }
}

/// The document is well formed: every object names a table of it.
pub open spec fn document_wf(d: DgsDocumentV) -> bool {
    forall|k: int| 0 <= k < d.objects.len() ==> (#[trigger] d.objects[k]).class_index < d.classes.len()
}

/// Encoding splits at any point of the text.
pub proof fn lemma_encode_concat(a: Seq<char>, b: Seq<char>)
    ensures
        encode_utf8(a + b) == encode_utf8(a) + encode_utf8(b),
    decreases a.len(),
{
    if a.len() == 0 {
        assert(a + b =~= b);
        assert(encode_utf8(a) =~= Seq::<u8>::empty());
        assert(encode_utf8(a) + encode_utf8(b) =~= encode_utf8(b));
    } else {
        assert((a + b).drop_first() =~= a.drop_first() + b);
        assert((a + b)[0] == a[0]);
        lemma_encode_concat(a.drop_first(), b);
        assert(encode_utf8(a + b) =~= encode_utf8(a) + encode_utf8(b));
    }
}

/// How many bytes UTF-8 takes for `c`.
fn utf8_width(c: char) -> (r: usize)
    ensures
        r == vstd::utf8::encode_scalar(c as u32).len(),
        1 <= r <= 4,
{
    proof {
        vstd::utf8::char_is_scalar(c);
    }
    let u = c as u32;
    if u <= 0x7F {
        1
    } else if u <= 0x7FF {
        2
    } else if u <= 0xFFFF {
        3
    } else {
        4
    }
}

/// How many bytes UTF-8 takes for `s[lo..hi]`.
fn encoded_len(s: &Vec<char>, lo: usize, hi: usize) -> (r: usize)
    requires
        lo <= hi <= s@.len(),
        encode_utf8(s@).len() <= usize::MAX,
    ensures
        r == encode_utf8(s@.subrange(lo as int, hi as int)).len(),
{
    proof {
        let x = s@.subrange(0, lo as int);
        let y = s@.subrange(lo as int, hi as int);
        let z = s@.subrange(hi as int, s@.len() as int);
        assert(s@ =~= x + y + z);
        lemma_encode_concat(x + y, z);
        lemma_encode_concat(x, y);
    }
    let mut total: usize = 0;
    let mut i = lo;
    while i < hi
        invariant
            lo <= i <= hi <= s@.len(),
            total == encode_utf8(s@.subrange(lo as int, i as int)).len(),
            encode_utf8(s@.subrange(lo as int, hi as int)).len() <= usize::MAX,
        decreases hi - i,
    {
        let w = utf8_width(s[i]);
        proof {
            let a = s@.subrange(lo as int, i as int);
            let one = seq![s@[i as int]];
            assert(s@.subrange(lo as int, i + 1) =~= a + one);
            lemma_encode_concat(a, one);
            assert(one.drop_first() =~= Seq::<char>::empty());
            assert(one[0] == s@[i as int]);
            assert(encode_utf8(one) == vstd::utf8::encode_scalar(one[0] as u32) + encode_utf8(one.drop_first()));
            assert(encode_utf8(one.drop_first()) =~= Seq::<u8>::empty());
            assert(encode_utf8(one) =~= vstd::utf8::encode_scalar(s@[i as int] as u32));
            let rest = s@.subrange(i + 1, hi as int);
            assert(s@.subrange(lo as int, hi as int) =~= a + one + rest);
            lemma_encode_concat(a + one, rest);
        }
        total = total + w;
        i = i + 1;
    }
    total
}

/// The pieces of `s` between the separators `c`.
pub fn split_pieces(s: &Vec<char>, c: char) -> (r: Vec<Vec<char>>)
    ensures
        text_views(r@) == split_on(s@, c),
{
    let n = s.len();
    let ghost whole = split_on(s@, c);
    assert(s@.subrange(0, n as int) =~= s@);
    let mut out: Vec<Vec<char>> = Vec::new();
    let mut lo: usize = 0;
    assert(text_views(out@) =~= Seq::<Seq<char>>::empty());
    loop
        invariant
            lo <= n == s@.len(),
            whole == split_on(s@, c),
            whole == text_views(out@) + split_on(s@.subrange(lo as int, n as int), c),
        decreases n - lo,
    {
        let e = find_char(s, lo, n, c);
        let piece = slice_of(s, lo, e);
        let ghost before = out@;
        let ghost pv = piece@;
        out.push(piece);
        assert(text_views(out@) =~= text_views(before).push(pv));
        if e == n {
            proof {
                crate::text::lemma_split_on_last(s@, c, lo as int, n as int);
                assert(whole =~= text_views(out@));
            }
            return out;
        }
        proof {
            crate::text::lemma_split_on_step(s@, c, lo as int, e as int, n as int);
            assert(whole =~= text_views(out@) + split_on(s@.subrange(e + 1, n as int), c));
        }
        lo = e + 1;
    }
}

/// The reader's state.
pub struct DgsReader {
    pub general: Vec<(String, String)>,
    pub in_general: bool,
    pub version_seen: bool,
    pub current: Option<usize>,
    pub objects: Vec<DgsObject>,
    pub classes: Vec<ClassHeader>,
    pub comma: bool,
}

impl View for DgsReader {
    type V = DgsState;

    open spec fn view(&self) -> DgsState {
        DgsState {
            general: general_views(self.general@),
            in_general: self.in_general,
            version_seen: self.version_seen,
            current: self.current,
            objects: object_views(self.objects@),
            classes: header_views(self.classes@),
            comma: self.comma,
        }
    }
}

fn is_text(s: &Vec<char>, t: &str) -> (r: bool)
    ensures
        r == (s@ == t@),
{
    let tc = chars_of(t);
    chars_eq(s, &tc)
}

impl DgsReader {
    /// Open a table: `header` is the header line without its `$$`.
    pub fn open_table(&mut self, header: &Vec<char>, line: usize) -> (r: Result<(), String>)
        requires
            state_wf(old(self)@),
        ensures
            state_wf(final(self)@),
            match r {
                Ok(()) => open_table(old(self)@, header@, line) == Ok::<DgsState, Seq<char>>(final(self)@),
                Err(e) => open_table(old(self)@, header@, line) == Err::<DgsState, Seq<char>>(e@),
            },
    {
        let parts = split_pieces(header, ';');
        let ghost pv = text_views(parts@);
        assert(pv.len() > 0);
        assert(pv[0] == parts@[0]@);
        let class = trimmed(&parts[0]);
        if is_text(&class, "General") {
            self.in_general = true;
            self.current = None;
            return Ok(());
        }
        if class.len() == 0 {
            let m = chars_of("a table header names no class");
            return Err(malformed_text(line, &m));
        }
        let mut ds: Vec<Vec<char>> = Vec::new();
        let mut i: usize = 1;
        let ghost rest = pv.drop_first().map_values(|p: Seq<char>| trim(p));
        assert(text_views(ds@) =~= rest.take(0));
        while i < parts.len()
            invariant
                1 <= i <= parts@.len(),
                pv == text_views(parts@),
                rest == pv.drop_first().map_values(|p: Seq<char>| trim(p)),
                text_views(ds@) == rest.take(i - 1),
            decreases parts@.len() - i,
        {
            let d = trimmed(&parts[i]);
            let ghost before = ds@;
            let ghost dv = d@;
            ds.push(d);
            proof {
                assert(pv[i as int] == parts@[i as int]@);
                assert(text_views(ds@) =~= text_views(before).push(dv));
                assert(rest.take(i as int) =~= rest.take(i - 1).push(rest[i - 1]));
            }
            i = i + 1;
        }
        assert(rest.take(parts@.len() - 1) =~= rest);
        let h = match parse_header(&class, &ds, line) {
            Ok(h) => h,
            Err(e) => {
                return Err(e);
            },
        };
        let index = self.classes.len();
        let ghost before = self.classes@;
        let ghost hv = h@;
        self.classes.push(h);
        assert(header_views(self.classes@) =~= header_views(before).push(hv));
        self.in_general = false;
        self.current = Some(index);
        Ok(())
    }

    /// Read a data row.
    #[verifier::rlimit(30)]
    pub fn read_row(&mut self, row: &Vec<char>, line: usize, start: usize, end: usize) -> (r: Result<(), String>)
        requires
            state_wf(old(self)@),
        ensures
            state_wf(final(self)@),
            match r {
                Ok(()) => read_row(old(self)@, row@, line, start, end) == Ok::<DgsState, Seq<char>>(final(self)@),
                Err(e) => read_row(old(self)@, row@, line, start, end) == Err::<DgsState, Seq<char>>(e@),
            },
    {
        let fs = split_row(row);
        let ghost fv = text_views(fs@);
        if self.in_general {
            if fs.len() < 3 {
                let m = chars_of("a `$$General` row needs three fields");
                return Err(malformed_text(line, &m));
            }
            assert(fv[1] == fs@[1]@);
            assert(fv[2] == fs@[2]@);
            let descr = trimmed(&fs[1]);
            let value = trimmed(&fs[2]);
            let is_version = is_text(&descr, "Version");
            if is_version && !is_text(&value, "5.0") {
                let mut m: Vec<char> = Vec::new();
                push_str(&mut m, "DGS version ");
                push_chars(&mut m, &value);
                push_str(
                    &mut m,
                    " is not read; only DGS 5.0 ASCII is read. Export the project again with the DGS V5 export definitions",
                );
                return Err(malformed_text(line, &m));
            }
            let ghost before = self.general@;
            let ghost pair = (descr@, value@);
            self.general.push((string_of(&descr), string_of(&value)));
            assert(general_views(self.general@) =~= general_views(before).push(pair));
            if is_version {
                self.version_seen = true;
            }
            return Ok(());
        }
        let ci = match self.current {
            None => {
                let m = chars_of("a data row precedes every table header");
                return Err(malformed_text(line, &m));
            },
            Some(ci) => ci,
        };
        assert(header_views(self.classes@)[ci as int] == self.classes@[ci as int]@);
        let id_field = self.classes[ci].id_field;
        let id_text = if id_field < fs.len() {
            assert(fv[id_field as int] == fs@[id_field as int]@);
            trimmed(&fs[id_field])
        } else {
            Vec::new()
        };
        assert(id_text@.subrange(0, id_text@.len() as int) =~= id_text@);
        let class = chars_of(self.classes[ci].class.as_str());
        let id = match parse_i64(&id_text, 0, id_text.len()) {
            Some(id) => id,
            None => {
                let mut m: Vec<char> = Vec::new();
                push_str(&mut m, "object id `");
                push_chars(&mut m, &id_text);
                push_str(&mut m, "` in `");
                push_chars(&mut m, &class);
                push_str(&mut m, "` is not an integer");
                return Err(malformed_text(line, &m));
            },
        };
        let vals = match read_values(&mut self.comma, &self.classes[ci].attrs, &fs, line, &class) {
            Ok(v) => v,
            Err(e) => {
                return Err(e);
            },
        };
        let o = DgsObject { id, class_index: ci, line, byte_start: start, byte_end: end, values: vals };
        let ghost before = self.objects@;
        let ghost ov = o@;
        self.objects.push(o);
        assert(object_views(self.objects@) =~= object_views(before).push(ov));
        Ok(())
    }

    /// Read one line.
    #[verifier::rlimit(40)]
    pub fn read_line(&mut self, b: &[u8], line: Line) -> (r: Result<(), String>)
        requires
            state_wf(old(self)@),
            line.start <= line.end <= b@.len(),
        ensures
            state_wf(final(self)@),
            match r {
                Ok(()) => dgs_line(b@, old(self)@, line) == Ok::<DgsState, Seq<char>>(final(self)@),
                Err(e) => dgs_line(b@, old(self)@, line) == Err::<DgsState, Seq<char>>(e@),
            },
    {
        reveal(dgs_line);
        let text = line_chars(b, line);
        let n = text.len();
        let (a, z) = trim_bounds(&text, 0, n);
        assert(text@.subrange(0, n as int) =~= text@);
        if a == z {
            return Ok(());
        }
        let t = slice_of(&text, a, z);
        if t[0] == '*' {
            return Ok(());
        }
        let tn = t.len();
        assert(t@.subrange(0, tn as int) =~= t@);
        if crate::text::range_starts_with(&t, 0, tn, "$$") {
            proof {
                reveal_strlit("$$");
            }
            let rest = slice_of(&t, 2, tn);
            assert(rest@ =~= t@.skip(2));
            return self.open_table(&rest, line.number);
        }
        proof {
            let sub = b@.subrange(line.start as int, line.end as int);
            if vstd::utf8::valid_utf8(sub) {
                vstd::utf8::decode_utf8_encode_utf8(sub);
            } else {
                assert(text@ =~= Seq::<char>::empty());
            }
            assert(encode_utf8(text@).len() <= line.end - line.start);
            let x = text@.subrange(0, a as int);
            let y = text@.subrange(a as int, z as int);
            let w = text@.subrange(z as int, n as int);
            assert(text@ =~= x + y + w);
            lemma_encode_concat(x + y, w);
            lemma_encode_concat(x, y);
            assert(text@.take(a as int) =~= x);
            assert(text@.len() - trim_start(text@).len() == a);
        }
        let lead = encoded_len(&text, 0, a);
        let size = encoded_len(&text, a, z);
        let bs = line.start + lead;
        self.read_row(&t, line.number, bs, bs + size)
    }
}

impl DgsDocument {
    /// Decode `text`. A structural failure (an unreadable header, a bad
    /// number, an unsupported version) fails with a message naming the line.
    #[verifier::rlimit(40)]
    pub fn parse(text: &str) -> (r: Result<DgsDocument, String>)
        requires
            vstd::string::StringSliceAdditionalSpecFns::spec_bytes(text).len() < usize::MAX,
        ensures
            match r {
                Ok(d) => parse_spec(vstd::string::StringSliceAdditionalSpecFns::spec_bytes(text)) == Ok::<
                    DgsDocumentV,
                    Seq<char>,
                >(d@) && document_wf(d@),
                Err(e) => parse_spec(vstd::string::StringSliceAdditionalSpecFns::spec_bytes(text)) == Err::<
                    DgsDocumentV,
                    Seq<char>,
                >(e@),
            },
    {
        let bytes = text.as_bytes();
        let n = bytes.len();
        let ghost b = bytes@;
        let ghost all = lines_from(b, 0, 1);
        let mut reader = DgsReader {
            general: Vec::new(),
            in_general: false,
            version_seen: false,
            current: None,
            objects: Vec::new(),
            classes: Vec::new(),
            comma: false,
        };
        assert(reader@ =~= start_state()) by {
            assert(general_views(reader.general@) =~= Seq::<(Seq<char>, Seq<char>)>::empty());
            assert(object_views(reader.objects@) =~= Seq::<DgsObjectV>::empty());
            assert(header_views(reader.classes@) =~= Seq::<ClassHeaderV>::empty());
        }
        let mut p: usize = 0;
        let mut num: usize = 1;
        let ghost mut done: Seq<Line> = Seq::empty();
        assert(all =~= done + lines_from(b, 0, 1));
        while p < n
            invariant
                n == b.len(),
                bytes@ == b,
                b == vstd::string::StringSliceAdditionalSpecFns::spec_bytes(text),
                all == lines_from(b, 0, 1),
                p <= n,
                num == done.len() + 1,
                num <= p + 1,
                n < usize::MAX,
                all == done + lines_from(b, p as int, num as nat),
                dgs_scan(b, start_state(), done) == Ok::<DgsState, Seq<char>>(reader@),
                state_wf(reader@),
            decreases n - p,
        {
            let (line, next) = line_at(bytes, p, num);
            let ghost done2 = done.push(line);
            proof {
                assert(done2.drop_last() =~= done);
                assert(all =~= done2 + lines_from(b, next as int, (num + 1) as nat));
            }
            match reader.read_line(bytes, line) {
                Ok(()) => {},
                Err(e) => {
                    proof {
                        assert(all.take(done2.len() as int) =~= done2);
                        lemma_dgs_scan_fails(b, start_state(), all, done2.len() as int);
                    }
                    return Err(e);
                },
            }
            proof {
                done = done2;
            }
            p = next;
            num = num + 1;
        }
        proof {
            assert(lines_from(b, p as int, num as nat) =~= Seq::<Line>::empty());
            assert(all =~= done);
        }
        if !reader.version_seen {
            let m = chars_of("no `$$General` table states the DGS version; only DGS 5.0 ASCII is read");
            return Err(string_of(&m));
        }
        Ok(DgsDocument { general: reader.general, objects: reader.objects, classes: reader.classes })
    }
}

/// Once a line fails, the lines after leave the failure as it is.
pub proof fn lemma_dgs_scan_fails(b: Seq<u8>, st: DgsState, ls: Seq<Line>, k: int)
    requires
        0 <= k <= ls.len(),
        dgs_scan(b, st, ls.take(k)) is Err,
    ensures
        dgs_scan(b, st, ls) == dgs_scan(b, st, ls.take(k)),
    decreases ls.len() - k,
{
    if k < ls.len() {
        assert(ls.take(k + 1).drop_last() =~= ls.take(k));
        lemma_dgs_scan_fails(b, st, ls, k + 1);
    } else {
        assert(ls.take(k) =~= ls);
    }
}

} // verus!
