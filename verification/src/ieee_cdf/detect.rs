//! Telling a CDF case from other text by its first cards.

use vstd::prelude::*;

use super::card::{field, field_spec, upper, upper_of};
use super::model::Line;
use super::scan::{lemma_nl_from, line_chars, line_text, nl_from, piece_end};
use super::step::copy_range;
use crate::decimal::{finite_real, real_finite};
use crate::text::{range_is, trim, trim_bounds, trim_start, utf8_strict};

verus! {

/// Where the line that starts at `p` ends as `str::lines` cuts it: before
/// its line feed and the one carriage return right before it.
pub open spec fn lines_end(b: Seq<u8>, p: int) -> int {
    let e = nl_from(b, p);
    if e < b.len() && e > p && b[e - 1] == 13 {
        e - 1
    } else {
        e
    }
}

/// The title card holds a `MM/DD/YY` date in columns 2 through 9: slashes
/// in columns 4 and 7.
pub open spec fn dated(b: Seq<u8>) -> bool {
    lines_end(b, 0) >= 9 && b[3] == 47 && b[6] == 47
}

/// The title card holds a number in the MVA base columns 32 through 37.
pub open spec fn based(b: Seq<u8>) -> bool {
    match field_spec(b, 0, lines_end(b, 0), (32, 37)) {
        Some(raw) => finite_real(raw),
        None => false,
    }
}

/// The first line from `p` on that is not blank opens with `BUS DATA`, in
/// any letter case, after its leading blanks.
pub open spec fn bus_header_from(b: Seq<u8>, p: int) -> bool
    decreases b.len() - p,
{
    if p < 0 || p >= b.len() {
        false
    } else {
        proof {
            lemma_nl_from(b, p);
        }
        let text = line_text(b, Line { number: 0, start: p as usize, end: lines_end(b, p) as usize });
        if trim(text).len() == 0 {
            bus_header_from(b, piece_end(b, p))
        } else {
            let u = trim_start(text);
            u.len() >= 8 && upper(u.take(8)) == "BUS DATA"@
        }
    }
}

/// The bytes open like a CDF case: valid UTF-8 whose title card is dated
/// and states an MVA base, or whose first card after the title is the bus
/// data header.
pub open spec fn cdf_signature(b: Seq<u8>) -> bool {
    &&& vstd::utf8::valid_utf8(b)
    &&& b.len() > 0
    &&& {
        ||| dated(b) && based(b)
        ||| bus_header_from(b, piece_end(b, 0))
    }
}

fn lines_end_exec(b: &[u8], p: usize) -> (e: usize)
    requires
        p <= b@.len(),
    ensures
        e == lines_end(b@, p as int),
        p <= e <= b@.len(),
{
    proof {
        lemma_nl_from(b@, p as int);
    }
    let mut e = p;
    while e < b.len() && b[e] != 10
        invariant
            p <= e <= b@.len(),
            nl_from(b@, p as int) == nl_from(b@, e as int),
        decreases b@.len() - e,
    {
        e = e + 1;
    }
    if e < b.len() && e > p && b[e - 1] == 13 {
        e - 1
    } else {
        e
    }
}

/// Whether `bytes` open with an IEEE CDF title card: a `MM/DD/YY` date in
/// columns 2 through 9 beside a numeric MVA base in columns 32 through 37,
/// or a `BUS DATA` section header as the first card after the title.
pub fn looks_like_ieee_cdf(bytes: &[u8]) -> (r: bool)
    ensures
        r == cdf_signature(bytes@),
{
    if utf8_strict(bytes).is_none() || bytes.len() == 0 {
        return false;
    }
    let n = bytes.len();
    let te = lines_end_exec(bytes, 0);
    let has_date = te >= 9 && bytes[3] == 47 && bytes[6] == 47;
    let has_base = match field(bytes, 0, te, (32, 37)) {
        Some(raw) => {
            assert(raw@.subrange(0, raw@.len() as int) =~= raw@);
            real_finite(&raw, 0, raw.len())
        },
        None => false,
    };
    if has_date && has_base {
        return true;
    }
    proof {
        lemma_nl_from(bytes@, 0);
    }
    let mut p: usize = {
        let mut e: usize = 0;
        while e < n && bytes[e] != 10
            invariant
                e <= n == bytes@.len(),
                nl_from(bytes@, 0) == nl_from(bytes@, e as int),
            decreases n - e,
        {
            e = e + 1;
        }
        if e < n {
            e + 1
        } else {
            n
        }
    };
    while p < n
        invariant
            p <= n == bytes@.len(),
            vstd::utf8::valid_utf8(bytes@),
            n > 0,
            !(dated(bytes@) && based(bytes@)),
            bus_header_from(bytes@, piece_end(bytes@, 0)) == bus_header_from(bytes@, p as int),
        decreases n - p,
    {
        proof {
            lemma_nl_from(bytes@, p as int);
        }
        let le = lines_end_exec(bytes, p);
        let line = Line { number: 0, start: p, end: le };
        let text = line_chars(bytes, line);
        let tn = text.len();
        let (a, z) = trim_bounds(&text, 0, tn);
        assert(text@.subrange(0, tn as int) =~= text@);
        if a < z {
            let a2 = crate::text::trim_start_at(&text, 0, tn);
            let head = copy_range(&text, a2, tn);
            if head.len() < 8 {
                return false;
            }
            let first = copy_range(&head, 0, 8);
            let up = upper_of(&first);
            assert(head@.take(8) =~= first@);
            assert(up@.subrange(0, 8) =~= up@);
            return range_is(&up, 0, 8, "BUS DATA");
        }
        let mut e = p;
        while e < n && bytes[e] != 10
            invariant
                p <= e <= n == bytes@.len(),
                nl_from(bytes@, p as int) == nl_from(bytes@, e as int),
            decreases n - e,
        {
            e = e + 1;
        }
        p = if e < n {
            e + 1
        } else {
            n
        };
    }
    false
}

} // verus!
