//! How a number is written back out: the significant digits of its value
//! around the decimal point, with no exponent and no superfluous zero, the
//! way `Display` writes a double that carries those digits.

use vstd::prelude::*;

use crate::decimal::{
    exponent_value, frac_digits, mantissa_digits, number_syntax, parts_of, pow10, scale, scan_number,
    unsigned_part, ExpSize,
};
use crate::text::{all_digits, signed_value, unsigned_value};

verus! {

/// The digits with their leading zeros dropped.
pub open spec fn drop_leading_zeros(d: Seq<char>) -> Seq<char>
    decreases d.len(),
{
    if d.len() > 0 && d[0] == '0' {
        drop_leading_zeros(d.drop_first())
    } else {
        d
    }
}

/// How many zeros the digits end with.
pub open spec fn trailing_zeros(d: Seq<char>) -> nat
    decreases d.len(),
{
    if d.len() > 0 && d.last() == '0' {
        1 + trailing_zeros(d.drop_last())
    } else {
        0
    }
}

pub open spec fn zeros(n: nat) -> Seq<char> {
    Seq::new(n, |i: int| '0')
}

/// The digits `d` scaled by `10^e`, written around the decimal point.
pub open spec fn shown_digits(d: Seq<char>, e: int) -> Seq<char> {
    if e >= 0 {
        d + zeros(e as nat)
    } else if d.len() > -e {
        d.take(d.len() + e) + seq!['.'] + d.skip(d.len() + e)
    } else {
        seq!['0', '.'] + zeros((-e - d.len()) as nat) + d
    }
}

/// How a positive number text is written back out: its significant digits,
/// without leading or trailing zeros, around the decimal point.
pub open spec fn shown(t: Seq<char>) -> Seq<char> {
    let u = unsigned_part(t);
    let d = drop_leading_zeros(mantissa_digits(u));
    let k = trailing_zeros(d);
    shown_digits(d.take(d.len() - k), scale(u) + k)
}

/// The exponent is small enough to write out in full.
pub open spec fn exponent_bounded(t: Seq<char>) -> bool {
    -1_000_000 < exponent_value(unsigned_part(t)) < 1_000_000
}

/// A number of at most six characters has an exponent of at most five
/// digits.
pub proof fn lemma_short_exponent(t: Seq<char>)
    requires
        t.len() <= 6,
        number_syntax(unsigned_part(t)),
    ensures
        exponent_bounded(t),
{
    let u = unsigned_part(t);
    if let Some(x) = crate::decimal::exponent_text(u) {
        assert(x.len() <= 5);
        let body = if x.len() > 0 && (x[0] == '-' || x[0] == '+') {
            x.drop_first()
        } else {
            x
        };
        if body.len() > 0 && all_digits(body) {
            crate::decimal::lemma_digits_upper(body);
            crate::decimal::lemma_pow10_mono(body.len(), 5);
            assert(pow10(5) == 100000) by {
                reveal_with_fuel(pow10, 6);
            }
        }
    }
}

proof fn lemma_pos_bounds(s: Seq<char>)
    ensures
        crate::decimal::e_pos(s) <= s.len(),
        crate::decimal::dot_pos(s) <= s.len(),
    decreases s.len(),
{
    if s.len() > 0 {
        lemma_pos_bounds(s.drop_first());
    }
}

/// A number's mantissa digits are no more than its characters.
proof fn lemma_digits_len(t: Seq<char>)
    ensures
        mantissa_digits(unsigned_part(t)).len() <= t.len(),
{
    let u = unsigned_part(t);
    lemma_pos_bounds(u);
    let m = crate::decimal::mantissa(u);
    lemma_pos_bounds(m);
}

proof fn lemma_drop_leading(d: Seq<char>, a: int)
    requires
        0 <= a <= d.len(),
        forall|k: int| 0 <= k < a ==> d[k] == '0',
        a == d.len() || d[a] != '0',
    ensures
        drop_leading_zeros(d) == d.skip(a),
    decreases a,
{
    if a > 0 {
        lemma_drop_leading(d.drop_first(), a - 1);
        assert(d.drop_first().skip(a - 1) =~= d.skip(a));
    } else {
        assert(d.skip(0) =~= d);
    }
}

proof fn lemma_trailing(d: Seq<char>, z: int)
    requires
        0 <= z <= d.len(),
        forall|k: int| z <= k < d.len() ==> d[k] == '0',
        z == 0 || d[z - 1] != '0',
    ensures
        trailing_zeros(d) == d.len() - z,
    decreases d.len() - z,
{
    if z < d.len() {
        lemma_trailing(d.drop_last(), z);
    }
}

fn push_zeros(out: &mut Vec<char>, n: usize)
    ensures
        final(out)@ == old(out)@ + zeros(n as nat),
{
    let ghost start = out@;
    let mut i: usize = 0;
    while i < n
        invariant
            i <= n,
            out@ == start + zeros(i as nat),
        decreases n - i,
    {
        out.push('0');
        i = i + 1;
        assert(out@ =~= start + zeros(i as nat));
    }
}

fn push_range(out: &mut Vec<char>, d: &Vec<char>, a: usize, z: usize)
    requires
        a <= z <= d@.len(),
    ensures
        final(out)@ == old(out)@ + d@.subrange(a as int, z as int),
{
    let ghost start = out@;
    let mut i = a;
    while i < z
        invariant
            a <= i <= z <= d@.len(),
            out@ == start + d@.subrange(a as int, i as int),
        decreases z - i,
    {
        out.push(d[i]);
        i = i + 1;
        assert(out@ =~= start + d@.subrange(a as int, i as int));
    }
}

/// Write a number text back out as `shown` describes.
#[verifier::spinoff_prover]
#[verifier::rlimit(60)]
pub fn show_number(t: &Vec<char>) -> (r: Vec<char>)
    requires
        number_syntax(unsigned_part(t@)),
        exponent_bounded(t@),
        t@.len() <= 21,
    ensures
        r@ == shown(t@),
{
    assert(t@.subrange(0, t@.len() as int) =~= t@);
    let p = match scan_number(t, 0, t.len()) {
        Some(p) => p,
        None => {
            return Vec::new();
        },
    };
    let x: i128 = match p.exp {
        ExpSize::Small(x) => x,
        _ => {
            return Vec::new();
        },
    };
    let d = &p.digits;
    let n = d.len();
    let mut a: usize = 0;
    while a < n && d[a] == '0'
        invariant
            a <= n == d@.len(),
            forall|k: int| 0 <= k < a ==> d@[k] == '0',
        decreases n - a,
    {
        a = a + 1;
    }
    let mut z: usize = n;
    while z > a && d[z - 1] == '0'
        invariant
            a <= z <= n == d@.len(),
            forall|k: int| z <= k < n ==> d@[k] == '0',
        decreases z - a,
    {
        z = z - 1;
    }
    let ghost d1 = d@.skip(a as int);
    proof {
        lemma_drop_leading(d@, a as int);
        lemma_trailing(d1, z - a);
        assert(d1.take(d1.len() - trailing_zeros(d1)) =~= d@.subrange(a as int, z as int));
    }
    let len = z - a;
    let e: i128 = x - p.frac_len as i128 + (n - z) as i128;
    let mut out: Vec<char> = Vec::new();
    proof {
        lemma_digits_len(t@);
    }
    assert(-1_000_000 < x < 1_000_000);
    assert(p.frac_len <= n);
    if e >= 0 {
        push_range(&mut out, d, a, z);
        push_zeros(&mut out, e as usize);
        assert(out@ =~= shown_digits(d@.subrange(a as int, z as int), e as int));
    } else if (len as i128) > -e {
        let cut = a + ((len as i128 + e) as usize);
        push_range(&mut out, d, a, cut);
        out.push('.');
        push_range(&mut out, d, cut, z);
        proof {
            let s = d@.subrange(a as int, z as int);
            assert(s.take(s.len() + e) =~= d@.subrange(a as int, cut as int));
            assert(s.skip(s.len() + e) =~= d@.subrange(cut as int, z as int));
            assert(out@ =~= shown_digits(s, e as int));
        }
    } else {
        out.push('0');
        out.push('.');
        push_zeros(&mut out, (-e - len as i128) as usize);
        push_range(&mut out, d, a, z);
        assert(out@ =~= shown_digits(d@.subrange(a as int, z as int), e as int));
    }
    out
}

} // verus!
