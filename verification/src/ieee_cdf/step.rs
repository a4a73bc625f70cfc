//! One line of the card scan, as the reader executes it.

use vstd::prelude::*;

use super::card::{declared_items, first_word, is_terminator, upper_of, Section};
use super::model::{FindingCode, Line};
use super::read::Reader;
use super::scan::{is_alpha, line_chars, line_step, Open, Scan};
use super::tables::{bump_exec, Tables};
use crate::text::{chars_eq, chars_of, push_chars, push_str, range_is, trim_bounds};

verus! {

/// `s[a..z]` as its own vector.
pub fn copy_range(s: &Vec<char>, a: usize, z: usize) -> (r: Vec<char>)
    requires
        a <= z <= s@.len(),
    ensures
        r@ == s@.subrange(a as int, z as int),
{
    let mut out: Vec<char> = Vec::new();
    let mut i = a;
    while i < z
        invariant
            a <= i <= z <= s@.len(),
            out@ == s@.subrange(a as int, i as int),
        decreases z - i,
    {
        out.push(s[i]);
        i = i + 1;
        assert(out@ =~= s@.subrange(a as int, i as int));
    }
    out
}

fn alpha(c: char) -> (r: bool)
    ensures
        r == is_alpha(c),
{
    ('a' <= c && c <= 'z') || ('A' <= c && c <= 'Z')
}

/// The scan state as the reader holds it.
pub open spec fn scan_state(
    fs: Seq<super::model::FindingV>,
    t: super::tables::TablesV,
    open: Option<Open>,
    ended: bool,
    stopped: bool,
) -> Scan {
    Scan { fs, t, open, ended, stopped }
}

impl<'a> Reader<'a> {
    /// Scan one line after the title card. Returns whether text after the
    /// end card stopped the scan.
    #[verifier::rlimit(60)]
    pub fn step_line(&mut self, line: Line, t: &mut Tables, open: &mut Option<Open>, ended: &mut bool) -> (r:
        Result<bool, String>)
        requires
            old(self).wf(),
            line.start <= line.end <= old(self).bytes@.len(),
            *old(open) matches Some(sec) ==> sec.header.start <= sec.header.end <= old(self).bytes@.len(),
        ensures
            final(self).wf(),
            final(self).bytes == old(self).bytes,
            final(self).origin == old(self).origin,
            *final(open) matches Some(sec) ==> sec.header.start <= sec.header.end <= old(self).bytes@.len(),
            ({
                let s0 = scan_state(old(self).fs(), old(t)@, *old(open), *old(ended), false);
                match r {
                    Ok(stop) => line_step(old(self).bytes@, old(self).origin, s0, line) == Ok::<
                        Scan,
                        (Seq<super::model::FindingV>, Seq<char>),
                    >(scan_state(final(self).fs(), final(t)@, *final(open), *final(ended), stop)),
                    Err(e) => line_step(old(self).bytes@, old(self).origin, s0, line) == Err::<
                        Scan,
                        (Seq<super::model::FindingV>, Seq<char>),
                    >((final(self).fs(), e@)),
                }
            }),
    {
        reveal(line_step);
        let text = line_chars(self.bytes, line);
        let n = text.len();
        let (a, z) = trim_bounds(&text, 0, n);
        assert(text@.subrange(0, n as int) =~= text@);
        let trimmed = copy_range(&text, a, z);
        let first = match first_word(&trimmed) {
            None => {
                return Ok(false);
            },
            Some(f) => f,
        };
        if *ended {
            let mut m: Vec<char> = Vec::new();
            push_str(&mut m, "text after END OF DATA is ignored");
            self.report(FindingCode::SourceMalformed, line, &m);
            return Ok(true);
        }
        if is_terminator(&first) {
            match *open {
                Some(sec) => {
                    let term = chars_of(sec.section.terminator());
                    if !chars_eq(&first, &term) {
                        let mut m: Vec<char> = Vec::new();
                        push_str(&mut m, sec.section.label());
                        push_str(&mut m, " section ends with `");
                        push_chars(&mut m, &first);
                        push_str(&mut m, "` rather than `");
                        push_chars(&mut m, &term);
                        push_str(&mut m, "`");
                        self.report(FindingCode::SourceMalformed, line, &m);
                    }
                    self.close(sec);
                    *open = None;
                },
                None => {
                    let mut m: Vec<char> = Vec::new();
                    push_str(&mut m, "terminator `");
                    push_chars(&mut m, &first);
                    push_str(&mut m, "` outside a section is ignored");
                    self.report(FindingCode::SourceMalformed, line, &m);
                },
            }
            return Ok(false);
        }
        let card = n > 0 && alpha(text[0]);
        let up = upper_of(&first);
        let is_end = range_is(&up, 0, up.len(), "END");
        assert(up@.subrange(0, up@.len() as int) =~= up@);
        if card && is_end {
            if let Some(sec) = *open {
                self.unterminated(sec, line);
            }
            *open = None;
            *ended = true;
            return Ok(false);
        }
        if card {
            if let Some(next) = Section::from_header(&first) {
                if let Some(sec) = *open {
                    self.unterminated(sec, line);
                }
                *open = Some(Open { section: next, header: line, declared: declared_items(&trimmed), records: 0 });
                return Ok(false);
            }
        }
        match *open {
            None => {
                let mut m: Vec<char> = Vec::new();
                push_str(&mut m, "record outside a section is ignored");
                self.report(FindingCode::SourceMalformed, line, &m);
                Ok(false)
            },
            Some(sec) => {
                match self.record(sec.section, line, t) {
                    Ok(()) => {},
                    Err(e) => {
                        return Err(e);
                    },
                }
                *open = Some(Open { records: bump_exec(sec.records), ..sec });
                Ok(false)
            },
        }
    }
}

} // verus!
