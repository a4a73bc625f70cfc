//! The card level of the IEEE Common Data Format: physical lines, fixed
//! column fields, integer fields, section headers and terminators, and the
//! title card date.

use vstd::prelude::*;

use crate::decimal::{real_integer, real_integer_value};
use crate::text::{
    all_digits, chars_of, find_char, first_index_of, lemma_split_on_last, lemma_split_on_step,
    parse_i64, parse_i64_spec, parse_u32, parse_u32_spec, parse_usize, parse_usize_spec,
    push_chars, push_padded, split_on, trim, trim_bounds, utf8_strict, zero_padded, is_ws,
    char_is_ws,
};

verus! {

broadcast use vstd::string::group_string_axioms;

/// A 1-based inclusive column range, as the format description numbers
/// them.
pub type Columns = (usize, usize);

/// Whether `i` may start or end a slice of the line `b[ls..le]`: the line's
/// ends, or a byte that does not continue a multibyte character.
pub open spec fn line_boundary(b: Seq<u8>, ls: int, le: int, i: int) -> bool {
    i == ls || i == le || (ls < i < le && !vstd::utf8::is_continuation_byte(b[i]))
}

/// The byte range `columns` select in the line `b[ls..le]`, when the line
/// reaches the first column.
pub open spec fn column_range(ls: int, le: int, c: Columns) -> Option<(int, int)> {
    if le - ls < c.0 {
        None
    } else {
        Some(
            (
                ls + c.0 - 1,
                ls + if c.1 < le - ls {
                    c.1 as int
                } else {
                    le - ls
                },
            ),
        )
    }
}

/// The trimmed text in `columns`, or `None` when the line ends before the
/// first column, the range splits a character, or the columns hold only
/// blanks.
pub open spec fn field_spec(b: Seq<u8>, ls: int, le: int, c: Columns) -> Option<Seq<char>> {
    match column_range(ls, le, c) {
        None => None,
        Some((a, z)) => if line_boundary(b, ls, le, a) && line_boundary(b, ls, le, z)
            && vstd::utf8::valid_utf8(b.subrange(a, z)) {
            let t = trim(vstd::utf8::decode_utf8(b.subrange(a, z)));
            if t.len() > 0 {
                Some(t)
            } else {
                None
            }
        } else {
            None
        },
    }
}

fn is_boundary(b: &[u8], ls: usize, le: usize, i: usize) -> (r: bool)
    requires
        ls <= le <= b@.len(),
        ls <= i <= le,
    ensures
        r == line_boundary(b@, ls as int, le as int, i as int),
{
    i == ls || i == le || !(0x80 <= b[i] && b[i] < 0xC0)
}

/// The trimmed text in `columns` of the line `b[ls..le]`.
pub fn field(b: &[u8], ls: usize, le: usize, c: Columns) -> (r: Option<Vec<char>>)
    requires
        ls <= le <= b@.len(),
        1 <= c.0 <= c.1,
    ensures
        r matches Some(v) ==> field_spec(b@, ls as int, le as int, c) == Some(v@),
        r is None ==> field_spec(b@, ls as int, le as int, c) is None,
{
    let len = le - ls;
    if len < c.0 {
        return None;
    }
    let a = ls + c.0 - 1;
    let z = ls + if c.1 < len {
        c.1
    } else {
        len
    };
    if !is_boundary(b, ls, le, a) || !is_boundary(b, ls, le, z) {
        return None;
    }
    let slice = vstd::slice::slice_subrange(b, a, z);
    let text = match utf8_strict(slice) {
        Some(t) => t,
        None => {
            return None;
        },
    };
    let cs = chars_of(text);
    let (x, y) = trim_bounds(&cs, 0, cs.len());
    assert(cs@.subrange(0, cs@.len() as int) =~= cs@);
    if x == y {
        return None;
    }
    let mut out: Vec<char> = Vec::new();
    let mut i = x;
    while i < y
        invariant
            x <= i <= y <= cs@.len(),
            out@ == cs@.subrange(x as int, i as int),
        decreases y - i,
    {
        out.push(cs[i]);
        i = i + 1;
        assert(out@ =~= cs@.subrange(x as int, i as int));
    }
    Some(out)
}

/// An integer field: the `i64` the text spells, or else a real spelling of
/// an integer below `9e15` in magnitude, as Fortran writers emit `1.`.
pub open spec fn parse_int_spec(raw: Seq<char>) -> Option<int> {
    match parse_i64_spec(raw) {
        Some(v) => Some(v as int),
        None => real_integer(raw),
    }
}

/// An integer field.
pub fn parse_int(raw: &[char]) -> (r: Option<i64>)
    ensures
        r matches Some(v) ==> parse_int_spec(raw@) == Some(v as int),
        r is None ==> parse_int_spec(raw@) is None,
{
    assert(raw@.subrange(0, raw@.len() as int) =~= raw@);
    match parse_i64(raw, 0, raw.len()) {
        Some(v) => Some(v),
        None => real_integer_value(raw, 0, raw.len()),
    }
}

/// `-999`, `-99`, or `-9`: a minus sign followed by digits.
pub open spec fn terminator_word(w: Seq<char>) -> bool {
    w.len() >= 2 && w[0] == '-' && all_digits(w.drop_first())
}

/// Whether `w` is a terminator card's first word.
pub fn is_terminator(w: &[char]) -> (b: bool)
    ensures
        b == terminator_word(w@),
{
    if w.len() < 2 || w[0] != '-' {
        return false;
    }
    let ok = crate::decimal::range_all_digits(w, 1, w.len());
    assert(w@.subrange(1, w@.len() as int) =~= w@.drop_first());
    ok
}

/// The sections a CDF case holds, in the order a case declares them.
#[derive(Clone, Copy, Debug, PartialEq, Eq, Structural)]
pub enum Section {
    Bus,
    Branch,
    LossZone,
    Interchange,
    TieLine,
}

/// `s` folded by `str::to_ascii_uppercase`.
pub open spec fn upper(s: Seq<char>) -> Seq<char> {
    s.map_values(|c: char| ascii_upper(c))
}

pub open spec fn ascii_upper(c: char) -> char {
    if 'a' <= c <= 'z' {
        ((c as u32) - 32) as char
    } else {
        c
    }
}

fn to_ascii_upper(c: char) -> (r: char)
    ensures
        r == ascii_upper(c),
{
    if 'a' <= c && c <= 'z' {
        ((c as u32) - 32) as u8 as char
    } else {
        c
    }
}

/// `s` folded to ASCII upper case.
pub fn upper_of(s: &[char]) -> (r: Vec<char>)
    ensures
        r@ == upper(s@),
{
    let mut r: Vec<char> = Vec::new();
    let mut i: usize = 0;
    while i < s.len()
        invariant
            i <= s@.len(),
            r@ == upper(s@.take(i as int)),
        decreases s@.len() - i,
    {
        r.push(to_ascii_upper(s[i]));
        i = i + 1;
        assert(r@ =~= upper(s@.take(i as int)));
    }
    assert(s@.take(s@.len() as int) =~= s@);
    r
}

/// The section a header card opens, keyed on its first word: the format
/// description states that only that word is significant.
pub open spec fn section_of(first_word: Seq<char>) -> Option<Section> {
    let w = upper(first_word);
    if w == "BUS"@ {
        Some(Section::Bus)
    } else if w == "BRANCH"@ {
        Some(Section::Branch)
    } else if w == "LOSS"@ {
        Some(Section::LossZone)
    } else if w == "INTERCHANGE"@ {
        Some(Section::Interchange)
    } else if w == "TIE"@ {
        Some(Section::TieLine)
    } else {
        None
    }
}

impl Section {
    /// The section a header card opens, by its first word.
    pub fn from_header(first_word: &[char]) -> (r: Option<Section>)
        ensures
            r == section_of(first_word@),
    {
        let w = upper_of(first_word);
        let n = w.len();
        assert(w@.subrange(0, n as int) =~= w@);
        if crate::text::range_is(&w, 0, n, "BUS") {
            Some(Section::Bus)
        } else if crate::text::range_is(&w, 0, n, "BRANCH") {
            Some(Section::Branch)
        } else if crate::text::range_is(&w, 0, n, "LOSS") {
            Some(Section::LossZone)
        } else if crate::text::range_is(&w, 0, n, "INTERCHANGE") {
            Some(Section::Interchange)
        } else if crate::text::range_is(&w, 0, n, "TIE") {
            Some(Section::TieLine)
        } else {
            None
        }
    }

    pub open spec fn label_spec(self) -> Seq<char> {
        match self {
            Section::Bus => "bus data"@,
            Section::Branch => "branch data"@,
            Section::LossZone => "loss zone"@,
            Section::Interchange => "interchange data"@,
            Section::TieLine => "tie line"@,
        }
    }

    /// The section's name in findings.
    pub fn label(self) -> (r: &'static str)
        ensures
            r@ == self.label_spec(),
    {
        match self {
            Section::Bus => "bus data",
            Section::Branch => "branch data",
            Section::LossZone => "loss zone",
            Section::Interchange => "interchange data",
            Section::TieLine => "tie line",
        }
    }

    pub open spec fn terminator_spec(self) -> Seq<char> {
        match self {
            Section::Bus | Section::Branch | Section::TieLine => "-999"@,
            Section::LossZone => "-99"@,
            Section::Interchange => "-9"@,
        }
    }

    /// The card that closes the section.
    pub fn terminator(self) -> (r: &'static str)
        ensures
            r@ == self.terminator_spec(),
    {
        match self {
            Section::Bus | Section::Branch | Section::TieLine => "-999",
            Section::LossZone => "-99",
            Section::Interchange => "-9",
        }
    }
}

/// `MM/DD/YY` as an ISO 8601 date. Two digit years pivot at 1970; a blank
/// date (`0 /0 /0 `) is no date.
pub open spec fn iso_date_spec(raw: Seq<char>) -> Option<Seq<char>> {
    let parts = split_on(raw, '/');
    if parts.len() != 3 {
        None
    } else {
        match (
            parse_u32_spec(trim(parts[0])),
            parse_u32_spec(trim(parts[1])),
            parse_u32_spec(trim(parts[2])),
        ) {
            (Some(month), Some(day), Some(year)) => if 1 <= month <= 12 && 1 <= day <= 31 {
                let y: nat = if year <= 69 {
                    (2000 + year) as nat
                } else if year <= 99 {
                    (1900 + year) as nat
                } else {
                    year as nat
                };
                Some(
                    zero_padded(y, 4) + seq!['-'] + zero_padded(month as nat, 2) + seq!['-']
                        + zero_padded(day as nat, 2),
                )
            } else {
                None
            },
            _ => None,
        }
    }
}

/// The `u32` a trimmed piece `s[lo..hi]` spells.
fn trimmed_u32(s: &[char], lo: usize, hi: usize) -> (r: Option<u32>)
    requires
        lo <= hi <= s@.len(),
    ensures
        r == parse_u32_spec(trim(s@.subrange(lo as int, hi as int))),
{
    let (a, z) = trim_bounds(s, lo, hi);
    parse_u32(s, a, z)
}

/// `MM/DD/YY` as an ISO 8601 date.
pub fn iso_date(raw: &[char]) -> (r: Option<Vec<char>>)
    ensures
        r matches Some(v) ==> iso_date_spec(raw@) == Some(v@),
        r is None ==> iso_date_spec(raw@) is None,
{
    let n = raw.len();
    let ghost s = raw@;
    assert(s.subrange(0, n as int) =~= s);
    let e1 = find_char(raw, 0, n, '/');
    if e1 == n {
        proof {
            lemma_split_on_last(s, '/', 0, n as int);
        }
        return None;
    }
    proof {
        lemma_split_on_step(s, '/', 0, e1 as int, n as int);
    }
    let e2 = find_char(raw, e1 + 1, n, '/');
    if e2 == n {
        proof {
            lemma_split_on_last(s, '/', e1 + 1, n as int);
        }
        return None;
    }
    proof {
        lemma_split_on_step(s, '/', e1 + 1, e2 as int, n as int);
    }
    let e3 = find_char(raw, e2 + 1, n, '/');
    if e3 < n {
        proof {
            lemma_split_on_step(s, '/', e2 + 1, e3 as int, n as int);
            assert(split_on(s, '/').len() > 3);
        }
        return None;
    }
    proof {
        lemma_split_on_last(s, '/', e2 + 1, n as int);
        let parts = split_on(s, '/');
        assert(parts.len() == 3);
        assert(parts[0] == s.subrange(0, e1 as int));
        assert(parts[1] == s.subrange(e1 + 1, e2 as int));
        assert(parts[2] == s.subrange(e2 + 1, n as int));
    }
    let month = match trimmed_u32(raw, 0, e1) {
        Some(v) => v,
        None => {
            return None;
        },
    };
    let day = match trimmed_u32(raw, e1 + 1, e2) {
        Some(v) => v,
        None => {
            return None;
        },
    };
    let year = match trimmed_u32(raw, e2 + 1, n) {
        Some(v) => v,
        None => {
            return None;
        },
    };
    if !(1 <= month && month <= 12) || !(1 <= day && day <= 31) {
        return None;
    }
    let y: u64 = if year <= 69 {
        2000 + year as u64
    } else if year <= 99 {
        1900 + year as u64
    } else {
        year as u64
    };
    let mut out: Vec<char> = Vec::new();
    push_padded(&mut out, y, 4);
    out.push('-');
    push_padded(&mut out, month as u64, 2);
    out.push('-');
    push_padded(&mut out, day as u64, 2);
    proof {
        let expect = zero_padded(y as nat, 4) + seq!['-'] + zero_padded(month as nat, 2) + seq!['-']
            + zero_padded(day as nat, 2);
        assert(out@ =~= expect);
    }
    Some(out)
}

/// The length of the run of non-whitespace characters `s` opens with.
pub open spec fn run_len(s: Seq<char>) -> nat
    decreases s.len(),
{
    if s.len() == 0 || is_ws(s[0]) {
        0
    } else {
        1 + run_len(s.drop_first())
    }
}

pub proof fn lemma_run_len(s: Seq<char>)
    ensures
        run_len(s) <= s.len(),
        s.len() > 0 && !is_ws(s[0]) ==> run_len(s) >= 1,
        forall|k: int| 0 <= k < run_len(s) ==> !is_ws(s[k]),
        run_len(s) < s.len() ==> is_ws(s[run_len(s) as int]),
    decreases s.len(),
{
    if s.len() > 0 && !is_ws(s[0]) {
        lemma_run_len(s.drop_first());
        assert forall|k: int| 0 <= k < run_len(s) implies !is_ws(s[k]) by {
            if k > 0 {
                assert(s[k] == s.drop_first()[k - 1]);
            }
        }
    }
}

/// `str::split_whitespace`: the maximal runs of non-whitespace characters.
pub open spec fn words(s: Seq<char>) -> Seq<Seq<char>>
    decreases s.len(),
{
    if s.len() == 0 {
        Seq::empty()
    } else if is_ws(s[0]) {
        words(s.drop_first())
    } else {
        let k = run_len(s);
        proof {
            lemma_run_len(s);
        }
        seq![s.take(k as int)] + words(s.skip(k as int))
    }
}

proof fn lemma_run_len_skip(s: Seq<char>, j: int)
    requires
        0 <= j <= s.len(),
        forall|k: int| 0 <= k < j ==> !is_ws(s[k]),
    ensures
        run_len(s) == j + run_len(s.skip(j)),
    decreases j,
{
    if j > 0 {
        lemma_run_len_skip(s.drop_first(), j - 1);
        assert(s.drop_first().skip(j - 1) =~= s.skip(j));
    } else {
        assert(s.skip(0) =~= s);
    }
}

/// The next word of `s[i..hi]`: its bounds, or `None` when only whitespace
/// is left.
pub fn next_word(s: &[char], i: usize, hi: usize) -> (r: Option<(usize, usize)>)
    requires
        i <= hi <= s@.len(),
    ensures
        r is None ==> words(s@.subrange(i as int, hi as int)) == Seq::<Seq<char>>::empty(),
        r matches Some((a, z)) ==> {
            &&& i <= a < z <= hi
            &&& words(s@.subrange(i as int, hi as int)) == seq![s@.subrange(a as int, z as int)]
                + words(s@.subrange(z as int, hi as int))
        },
{
    let mut a = i;
    while a < hi && char_is_ws(s[a])
        invariant
            i <= a <= hi <= s@.len(),
            words(s@.subrange(i as int, hi as int)) == words(s@.subrange(a as int, hi as int)),
        decreases hi - a,
    {
        assert(s@.subrange(a as int, hi as int).drop_first() =~= s@.subrange(a + 1, hi as int));
        a = a + 1;
    }
    if a == hi {
        return None;
    }
    let mut z = a;
    while z < hi && !char_is_ws(s[z])
        invariant
            a <= z <= hi <= s@.len(),
            forall|k: int| a <= k < z ==> !is_ws(s@[k]),
        decreases hi - z,
    {
        z = z + 1;
    }
    proof {
        let t = s@.subrange(a as int, hi as int);
        assert(t[0] == s@[a as int]);
        lemma_run_len_skip(t, (z - a) as int);
        assert(t.skip((z - a) as int) =~= s@.subrange(z as int, hi as int));
        if z < hi {
            assert(s@.subrange(z as int, hi as int)[0] == s@[z as int]);
        }
        assert(t.take((z - a) as int) =~= s@.subrange(a as int, z as int));
    }
    Some((a, z))
}

/// Whether a word opens the `N ITEMS` count.
pub open spec fn item_word(w: Seq<char>) -> bool {
    crate::text::starts_with(upper(w), "ITEM"@)
}

/// The offset of the first `ITEM...` word, or the count of words.
pub open spec fn item_pos(ws: Seq<Seq<char>>) -> nat
    decreases ws.len(),
{
    if ws.len() == 0 {
        0
    } else if item_word(ws[0]) {
        0
    } else {
        1 + item_pos(ws.drop_first())
    }
}

/// The `N ITEMS` count on a section header, when the header states one.
pub open spec fn declared_items_spec(header: Seq<char>) -> Option<usize> {
    let ws = words(header);
    let p = item_pos(ws);
    if 1 <= p < ws.len() {
        parse_usize_spec(ws[p - 1])
    } else {
        None
    }
}

/// The `N ITEMS` count on a section header.
pub fn declared_items(header: &[char]) -> (r: Option<usize>)
    ensures
        r == declared_items_spec(header@),
{
    let n = header.len();
    let ghost all = words(header@);
    assert(header@.subrange(0, n as int) =~= header@);
    let mut i: usize = 0;
    let mut prev: Option<(usize, usize)> = None;
    let ghost mut done: Seq<Seq<char>> = Seq::empty();
    loop
        invariant
            i <= n,
            n == header@.len(),
            all == words(header@),
            all == done + words(header@.subrange(i as int, n as int)),
            item_pos(all) == done.len() + item_pos(words(header@.subrange(i as int, n as int))),
            forall|k: int| 0 <= k < done.len() ==> !item_word(#[trigger] done[k]),
            prev is None <==> done.len() == 0,
            prev matches Some((a, z)) ==> a <= z <= n && done.len() > 0 && done.last()
                == header@.subrange(a as int, z as int),
        decreases n - i,
    {
        match next_word(header, i, n) {
            None => {
                proof {
                    assert(all =~= done);
                    assert(item_pos(all) == all.len());
                }
                return None;
            },
            Some((a, z)) => {
                let ghost w = header@.subrange(a as int, z as int);
                let ghost rest = words(header@.subrange(z as int, n as int));
                let u = upper_of(vstd::slice::slice_subrange(header, a, z));
                let un = u.len();
                assert(u@.subrange(0, un as int) =~= u@);
                let is_item = crate::text::range_starts_with(&u, 0, un, "ITEM");
                proof {
                    assert((seq![w] + rest).drop_first() =~= rest);
                }
                if is_item {
                    proof {
                        assert(item_pos(seq![w] + rest) == 0);
                        assert(all[done.len() as int] == w);
                    }
                    return match prev {
                        None => None,
                        Some((pa, pz)) => {
                            proof {
                                assert(all[done.len() - 1] == done.last());
                            }
                            parse_usize(header, pa, pz)
                        },
                    };
                }
                proof {
                    assert(all =~= done.push(w) + rest);
                    done = done.push(w);
                }
                prev = Some((a, z));
                i = z;
            },
        }
    }
}

/// The first word of `s`, when it holds one.
pub fn first_word(s: &[char]) -> (r: Option<Vec<char>>)
    ensures
        r is None ==> words(s@).len() == 0,
        r matches Some(v) ==> words(s@).len() > 0 && words(s@)[0] == v@,
{
    let n = s.len();
    assert(s@.subrange(0, n as int) =~= s@);
    match next_word(s, 0, n) {
        None => None,
        Some((a, z)) => {
            let mut out: Vec<char> = Vec::new();
            let mut i = a;
            while i < z
                invariant
                    a <= i <= z <= s@.len(),
                    out@ == s@.subrange(a as int, i as int),
                decreases z - i,
            {
                out.push(s[i]);
                i = i + 1;
                assert(out@ =~= s@.subrange(a as int, i as int));
            }
            Some(out)
        },
    }
}

/// A field holds at most as many characters as its columns hold bytes.
pub proof fn lemma_field_len(b: Seq<u8>, ls: int, le: int, c: Columns)
    requires
        1 <= c.0 <= c.1,
        0 <= ls <= le <= b.len(),
    ensures
        field_spec(b, ls, le, c) matches Some(t) ==> t.len() <= c.1 - c.0 + 1,
{
    if let Some((a, z)) = column_range(ls, le, c) {
        if line_boundary(b, ls, le, a) && line_boundary(b, ls, le, z) && vstd::utf8::valid_utf8(
            b.subrange(a, z),
        ) {
            crate::text::lemma_decode_len(b.subrange(a, z));
            crate::text::lemma_trim_len(vstd::utf8::decode_utf8(b.subrange(a, z)));
        }
    }
}

} // verus!
