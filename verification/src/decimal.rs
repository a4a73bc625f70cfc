//! Real number fields as the readers meet them: the text grammar that
//! `str::parse::<f64>` accepts, and the questions the readers ask of a parsed
//! value, answered on the exact decimal value the text spells.
//!
//! A reader keeps a real field as its text. Whether the text is a number,
//! whether that number is finite as a double, whether it is an integer, and
//! how two numbers order are decided here on the decimal value itself. The
//! double the text parses to is the decimal value rounded to nearest, so the
//! answers agree with the double's wherever rounding keeps two decimals
//! apart: within the seventeen significant digits a double carries and above
//! its underflow range.

use vstd::prelude::*;

use crate::text::{
    all_digits, ascii_lower, chars_of, digit_value, digits_value, is_digit, signed_value,
    to_ascii_lower,
};

verus! {

broadcast use vstd::string::group_string_axioms;

pub open spec fn pow10(n: nat) -> nat
    decreases n,
{
    if n == 0 {
        1
    } else {
        10 * pow10((n - 1) as nat)
    }
}

pub open spec fn is_sign(c: char) -> bool {
    c == '+' || c == '-'
}

/// The text after an optional leading sign.
pub open spec fn unsigned_part(s: Seq<char>) -> Seq<char> {
    if s.len() > 0 && is_sign(s[0]) {
        s.drop_first()
    } else {
        s
    }
}

pub open spec fn is_negative(s: Seq<char>) -> bool {
    s.len() > 0 && s[0] == '-'
}

/// `s` spells the lower case word `w` in any letter case.
pub open spec fn word_ci(s: Seq<char>, w: Seq<char>) -> bool {
    s.len() == w.len() && forall|i: int| 0 <= i < s.len() ==> ascii_lower(#[trigger] s[i]) == w[i]
}

pub open spec fn special_word(u: Seq<char>) -> bool {
    ||| word_ci(u, seq!['i', 'n', 'f'])
    ||| word_ci(u, seq!['i', 'n', 'f', 'i', 'n', 'i', 't', 'y'])
    ||| word_ci(u, seq!['n', 'a', 'n'])
}

pub open spec fn is_e(c: char) -> bool {
    c == 'e' || c == 'E'
}

/// The offset of the first `e` or `E`, or the length.
pub open spec fn e_pos(s: Seq<char>) -> nat
    decreases s.len(),
{
    if s.len() == 0 {
        0
    } else if is_e(s[0]) {
        0
    } else {
        1 + e_pos(s.drop_first())
    }
}

/// The offset of the first `.`, or the length.
pub open spec fn dot_pos(s: Seq<char>) -> nat
    decreases s.len(),
{
    if s.len() == 0 {
        0
    } else if s[0] == '.' {
        0
    } else {
        1 + dot_pos(s.drop_first())
    }
}

pub open spec fn mantissa(u: Seq<char>) -> Seq<char> {
    u.take(e_pos(u) as int)
}

/// The digits before the decimal point.
pub open spec fn int_digits(u: Seq<char>) -> Seq<char> {
    mantissa(u).take(dot_pos(mantissa(u)) as int)
}

/// The digits after the decimal point.
pub open spec fn frac_digits(u: Seq<char>) -> Seq<char> {
    let m = mantissa(u);
    if dot_pos(m) < m.len() {
        m.skip(dot_pos(m) as int + 1)
    } else {
        Seq::empty()
    }
}

pub open spec fn exponent_text(u: Seq<char>) -> Option<Seq<char>> {
    if e_pos(u) < u.len() {
        Some(u.skip(e_pos(u) as int + 1))
    } else {
        None
    }
}

/// `Number ::= (Digit+ | Digit+ '.' Digit* | Digit* '.' Digit+) Exp?` with
/// `Exp ::= ('e' | 'E') Sign? Digit+`.
pub open spec fn number_syntax(u: Seq<char>) -> bool {
    &&& all_digits(int_digits(u))
    &&& all_digits(frac_digits(u))
    &&& int_digits(u).len() + frac_digits(u).len() > 0
    &&& match exponent_text(u) {
        Some(x) => signed_value(x) is Some,
        None => true,
    }
}

/// The grammar `str::parse::<f64>` accepts:
/// `Sign? ('inf' | 'infinity' | 'nan' | Number)`, the words in any case.
pub open spec fn real_syntax(s: Seq<char>) -> bool {
    special_word(unsigned_part(s)) || number_syntax(unsigned_part(s))
}

pub open spec fn exponent_value(u: Seq<char>) -> int {
    match exponent_text(u) {
        Some(x) => match signed_value(x) {
            Some(v) => v,
            None => 0,
        },
        None => 0,
    }
}

/// The digits of a number without its decimal point.
pub open spec fn mantissa_digits(u: Seq<char>) -> Seq<char> {
    int_digits(u) + frac_digits(u)
}

/// A number is `magnitude(u) * 10^scale(u)`.
pub open spec fn magnitude(u: Seq<char>) -> nat {
    digits_value(mantissa_digits(u))
}

pub open spec fn scale(u: Seq<char>) -> int {
    exponent_value(u) - frac_digits(u).len()
}

/// `m * 10^e < bound`.
pub open spec fn below(m: nat, e: int, bound: nat) -> bool {
    if e >= 0 {
        m * pow10(e as nat) < bound
    } else {
        m < bound * pow10((-e) as nat)
    }
}

/// The least magnitude that rounds to infinity as a double:
/// `2^1024 - 2^970`, half a unit in the last place above `f64::MAX`.
pub open spec fn f64_overflow() -> nat {
    digits_value(overflow_digits())
}

/// The text is a number whose double is finite: not `inf` or `nan`, and
/// below the overflow threshold in magnitude.
pub open spec fn finite_real(s: Seq<char>) -> bool {
    let u = unsigned_part(s);
    number_syntax(u) && below(magnitude(u), scale(u), f64_overflow())
}

/// `m * 10^e` when it is an integer.
pub open spec fn integral_of(m: nat, e: int) -> Option<nat> {
    if e >= 0 {
        Some(m * pow10(e as nat))
    } else if m % pow10((-e) as nat) == 0 {
        Some(m / pow10((-e) as nat))
    } else {
        None
    }
}

/// The integer a real text spells when it is integral and below `9e15` in
/// magnitude: what `fract() == 0.0 && abs() < 9.0e15` admits of the parsed
/// value, followed by the cast to `i64`.
pub open spec fn real_integer(s: Seq<char>) -> Option<int> {
    let u = unsigned_part(s);
    if number_syntax(u) {
        match integral_of(magnitude(u), scale(u)) {
            Some(v) => if v < 9_000_000_000_000_000 {
                Some(
                    if is_negative(s) {
                        -(v as int)
                    } else {
                        v as int
                    },
                )
            } else {
                None
            },
            None => None,
        }
    } else {
        None
    }
}

/// The signed value of a number text as `(numerator, exponent)`.
pub open spec fn real_value(s: Seq<char>) -> (int, int) {
    let u = unsigned_part(s);
    (
        if is_negative(s) {
            -(magnitude(u) as int)
        } else {
            magnitude(u) as int
        },
        scale(u),
    )
}

/// `a < b` on `(numerator, exponent)` values.
pub open spec fn value_lt(a: (int, int), b: (int, int)) -> bool {
    let e = if a.1 < b.1 {
        a.1
    } else {
        b.1
    };
    a.0 * pow10((a.1 - e) as nat) < b.0 * pow10((b.1 - e) as nat)
}

pub proof fn lemma_pow10_positive(n: nat)
    ensures
        pow10(n) >= 1,
    decreases n,
{
    if n > 0 {
        lemma_pow10_positive((n - 1) as nat);
    }
}

pub proof fn lemma_pow10_add(a: nat, b: nat)
    ensures
        pow10(a + b) == pow10(a) * pow10(b),
    decreases b,
{
    if b > 0 {
        lemma_pow10_add(a, (b - 1) as nat);
        assert(pow10(a + b) == 10 * pow10((a + b - 1) as nat));
        assert(pow10(a) * pow10(b) == pow10(a) * (10 * pow10((b - 1) as nat)));
        assert(pow10(a) * (10 * pow10((b - 1) as nat)) == 10 * (pow10(a) * pow10((b - 1) as nat)))
            by (nonlinear_arith);
    } else {
        assert(pow10(0) == 1);
        assert(a + b == a);
        assert(pow10(a) * 1 == pow10(a));
    }
}

pub proof fn lemma_pow10_mono(a: nat, b: nat)
    requires
        a <= b,
    ensures
        pow10(a) <= pow10(b),
{
    lemma_pow10_add(a, (b - a) as nat);
    lemma_pow10_positive((b - a) as nat);
    lemma_pow10_positive(a);
    assert(pow10(a) * pow10((b - a) as nat) >= pow10(a)) by (nonlinear_arith)
        requires
            pow10((b - a) as nat) >= 1,
    ;
}

/// Appending digits shifts the value of the prefix.
pub proof fn lemma_digits_concat(a: Seq<char>, b: Seq<char>)
    ensures
        digits_value(a + b) == digits_value(a) * pow10(b.len()) + digits_value(b),
    decreases b.len(),
{
    if b.len() == 0 {
        assert(a + b =~= a);
        assert(pow10(0) == 1);
        assert(digits_value(a) * 1 == digits_value(a));
    } else {
        let b0 = b.drop_last();
        lemma_digits_concat(a, b0);
        assert((a + b).drop_last() =~= a + b0);
        assert((a + b).last() == b.last());
        let x = digits_value(a);
        let p = pow10(b0.len());
        assert(pow10(b.len()) == 10 * p);
        assert(digits_value(a + b) == digits_value(a + b0) * 10 + digit_value(b.last()));
        assert(digits_value(b) == digits_value(b0) * 10 + digit_value(b.last()));
        assert((x * p + digits_value(b0)) * 10 + digit_value(b.last()) == x * (10 * p) + (
        digits_value(b0) * 10 + digit_value(b.last()))) by (nonlinear_arith);
    }
}

/// A run of digits is below ten to its length.
pub proof fn lemma_digits_upper(t: Seq<char>)
    requires
        all_digits(t),
    ensures
        digits_value(t) < pow10(t.len()),
    decreases t.len(),
{
    if t.len() > 0 {
        let t0 = t.drop_last();
        assert(all_digits(t0)) by {
            assert forall|i: int| 0 <= i < t0.len() implies is_digit(#[trigger] t0[i]) by {
                assert(t0[i] == t[i]);
            }
        }
        lemma_digits_upper(t0);
        assert(is_digit(t[t.len() - 1]));
        let v = digits_value(t0);
        let p = pow10(t0.len());
        assert(v * 10 + digit_value(t.last()) < p * 10) by (nonlinear_arith)
            requires
                v < p,
                digit_value(t.last()) < 10,
        ;
    }
}

/// A run of digits that opens with a nonzero digit is at least ten to its
/// length less one.
pub proof fn lemma_digits_lower(t: Seq<char>)
    requires
        all_digits(t),
        t.len() > 0,
        t[0] != '0',
    ensures
        digits_value(t) >= pow10((t.len() - 1) as nat),
    decreases t.len(),
{
    if t.len() == 1 {
        assert(t.drop_last().len() == 0);
        assert(is_digit(t[0]));
    } else {
        let t0 = t.drop_last();
        assert(all_digits(t0)) by {
            assert forall|i: int| 0 <= i < t0.len() implies is_digit(#[trigger] t0[i]) by {
                assert(t0[i] == t[i]);
            }
        }
        lemma_digits_lower(t0);
        let v = digits_value(t0);
        let p = pow10((t0.len() - 1) as nat);
        assert(pow10((t.len() - 1) as nat) == 10 * p);
        assert(v * 10 + digit_value(t.last()) >= 10 * p) by (nonlinear_arith)
            requires
                v >= p,
        ;
    }
}

/// A run of zeros is worth nothing.
pub proof fn lemma_digits_zero(t: Seq<char>)
    requires
        forall|i: int| 0 <= i < t.len() ==> t[i] == '0',
    ensures
        digits_value(t) == 0,
    decreases t.len(),
{
    if t.len() > 0 {
        let t0 = t.drop_last();
        assert forall|i: int| 0 <= i < t0.len() implies t0[i] == '0' by {
            assert(t0[i] == t[i]);
        }
        lemma_digits_zero(t0);
    }
}

/// Exponents this far from zero are told apart only by their sign.
pub open spec fn exp_cap() -> int {
    100_000_000_000_000_000_000
}

/// The size of a number's exponent.
pub enum ExpSize {
    /// The exponent itself, when it is below the cap in magnitude.
    Small(i128),
    /// At least the cap.
    HugePos,
    /// At most minus the cap.
    HugeNeg,
}

/// A number text taken apart: its sign, the digits of its mantissa without
/// the decimal point, how many of them follow the point, and its exponent.
pub struct NumberParts {
    pub neg: bool,
    pub digits: Vec<char>,
    pub frac_len: usize,
    pub exp: ExpSize,
}

pub open spec fn parts_of(p: NumberParts, s: Seq<char>) -> bool {
    let u = unsigned_part(s);
    &&& p.neg == is_negative(s)
    &&& p.digits@ == mantissa_digits(u)
    &&& all_digits(p.digits@)
    &&& p.frac_len == frac_digits(u).len()
    &&& p.frac_len <= p.digits@.len()
    &&& match p.exp {
        ExpSize::Small(x) => x == exponent_value(u) && -exp_cap() < x < exp_cap(),
        ExpSize::HugePos => exponent_value(u) >= exp_cap(),
        ExpSize::HugeNeg => exponent_value(u) <= -exp_cap(),
    }
}

proof fn lemma_e_pos_skip(s: Seq<char>, j: int)
    requires
        0 <= j <= s.len(),
        forall|k: int| 0 <= k < j ==> !is_e(s[k]),
    ensures
        e_pos(s) == j + e_pos(s.skip(j)),
    decreases j,
{
    if j > 0 {
        lemma_e_pos_skip(s.drop_first(), j - 1);
        assert(s.drop_first().skip(j - 1) =~= s.skip(j));
    } else {
        assert(s.skip(0) =~= s);
    }
}

proof fn lemma_dot_pos_skip(s: Seq<char>, j: int)
    requires
        0 <= j <= s.len(),
        forall|k: int| 0 <= k < j ==> s[k] != '.',
    ensures
        dot_pos(s) == j + dot_pos(s.skip(j)),
    decreases j,
{
    if j > 0 {
        lemma_dot_pos_skip(s.drop_first(), j - 1);
        assert(s.drop_first().skip(j - 1) =~= s.skip(j));
    } else {
        assert(s.skip(0) =~= s);
    }
}

/// The offset of the first `e` or `E` in `s[lo..hi]`, or `hi`.
fn find_e(s: &[char], lo: usize, hi: usize) -> (e: usize)
    requires
        lo <= hi <= s@.len(),
    ensures
        lo <= e <= hi,
        e - lo == e_pos(s@.subrange(lo as int, hi as int)),
{
    let mut e = lo;
    while e < hi && s[e] != 'e' && s[e] != 'E'
        invariant
            lo <= e <= hi <= s@.len(),
            forall|k: int| lo <= k < e ==> !is_e(s@[k]),
        decreases hi - e,
    {
        e = e + 1;
    }
    proof {
        let t = s@.subrange(lo as int, hi as int);
        lemma_e_pos_skip(t, (e - lo) as int);
        assert(t.skip((e - lo) as int) =~= s@.subrange(e as int, hi as int));
        if e < hi {
            assert(s@.subrange(e as int, hi as int)[0] == s@[e as int]);
        }
    }
    e
}

/// The offset of the first `.` in `s[lo..hi]`, or `hi`.
fn find_dot(s: &[char], lo: usize, hi: usize) -> (e: usize)
    requires
        lo <= hi <= s@.len(),
    ensures
        lo <= e <= hi,
        e - lo == dot_pos(s@.subrange(lo as int, hi as int)),
{
    let mut e = lo;
    while e < hi && s[e] != '.'
        invariant
            lo <= e <= hi <= s@.len(),
            forall|k: int| lo <= k < e ==> s@[k] != '.',
        decreases hi - e,
    {
        e = e + 1;
    }
    proof {
        let t = s@.subrange(lo as int, hi as int);
        lemma_dot_pos_skip(t, (e - lo) as int);
        assert(t.skip((e - lo) as int) =~= s@.subrange(e as int, hi as int));
        if e < hi {
            assert(s@.subrange(e as int, hi as int)[0] == s@[e as int]);
        }
    }
    e
}

/// Whether every character of `s[lo..hi]` is a digit.
pub fn range_all_digits(s: &[char], lo: usize, hi: usize) -> (b: bool)
    requires
        lo <= hi <= s@.len(),
    ensures
        b == all_digits(s@.subrange(lo as int, hi as int)),
{
    let mut i = lo;
    while i < hi
        invariant
            lo <= i <= hi <= s@.len(),
            forall|k: int| lo <= k < i ==> is_digit(s@[k]),
        decreases hi - i,
    {
        if !(s[i] >= '0' && s[i] <= '9') {
            assert(!is_digit(s@.subrange(lo as int, hi as int)[i - lo]));
            return false;
        }
        i = i + 1;
    }
    assert forall|k: int| 0 <= k < hi - lo implies is_digit(
        #[trigger] s@.subrange(lo as int, hi as int)[k],
    ) by {
        assert(s@.subrange(lo as int, hi as int)[k] == s@[lo + k]);
    }
    true
}

proof fn lemma_pow10_20()
    ensures
        pow10(20) == 100_000_000_000_000_000_000,
{
    reveal_with_fuel(pow10, 21);
}

/// The value of at most twenty digits.
fn small_digits(s: &[char], lo: usize, hi: usize) -> (v: u128)
    requires
        lo <= hi <= s@.len(),
        hi - lo <= 20,
        all_digits(s@.subrange(lo as int, hi as int)),
    ensures
        v as nat == digits_value(s@.subrange(lo as int, hi as int)),
        v < 100_000_000_000_000_000_000,
{
    proof {
        lemma_pow10_20();
    }
    let mut v: u128 = 0;
    let mut i = lo;
    while i < hi
        invariant
            lo <= i <= hi <= s@.len(),
            hi - lo <= 20,
            all_digits(s@.subrange(lo as int, hi as int)),
            v as nat == digits_value(s@.subrange(lo as int, i as int)),
            pow10(20) == 100_000_000_000_000_000_000,
        decreases hi - i,
    {
        let ghost t = s@.subrange(lo as int, (i + 1) as int);
        proof {
            assert(t.drop_last() =~= s@.subrange(lo as int, i as int));
            assert(s@.subrange(lo as int, hi as int)[i - lo] == s@[i as int]);
            assert(all_digits(t)) by {
                assert forall|k: int| 0 <= k < t.len() implies is_digit(#[trigger] t[k]) by {
                    assert(t[k] == s@.subrange(lo as int, hi as int)[k]);
                }
            }
            lemma_digits_upper(t);
            lemma_pow10_mono(t.len(), 20);
        }
        let d = (s[i] as u32 - '0' as u32) as u128;
        v = v * 10 + d;
        i = i + 1;
    }
    proof {
        let t = s@.subrange(lo as int, hi as int);
        lemma_digits_upper(t);
        lemma_pow10_mono(t.len(), 20);
    }
    v
}

proof fn lemma_leading_zeros(s: Seq<char>, z: int)
    requires
        0 <= z <= s.len(),
        forall|k: int| 0 <= k < z ==> s[k] == '0',
    ensures
        digits_value(s) == digits_value(s.skip(z)),
{
    lemma_digits_concat(s.take(z), s.skip(z));
    assert(s.take(z) + s.skip(z) =~= s);
    assert forall|k: int| 0 <= k < s.take(z).len() implies s.take(z)[k] == '0' by {}
    lemma_digits_zero(s.take(z));
}

/// The exponent digits `s[lo..hi]` with an optional sign, as
/// `signed_value` reads them, sized against the cap.
fn scan_exponent(s: &[char], lo: usize, hi: usize) -> (r: Option<ExpSize>)
    requires
        lo <= hi <= s@.len(),
    ensures
        r is Some <==> signed_value(s@.subrange(lo as int, hi as int)) is Some,
        r matches Some(x) ==> match x {
            ExpSize::Small(v) => v == signed_value(s@.subrange(lo as int, hi as int))->0 && -exp_cap()
                < v < exp_cap(),
            ExpSize::HugePos => signed_value(s@.subrange(lo as int, hi as int))->0 >= exp_cap(),
            ExpSize::HugeNeg => signed_value(s@.subrange(lo as int, hi as int))->0 <= -exp_cap(),
        },
        r matches Some(x) ==> (x is Small || hi - lo > 20),
{
    let ghost t = s@.subrange(lo as int, hi as int);
    let neg = lo < hi && s[lo] == '-';
    let d0 = if lo < hi && (s[lo] == '-' || s[lo] == '+') {
        lo + 1
    } else {
        lo
    };
    proof {
        if lo < hi && (s@[lo as int] == '-' || s@[lo as int] == '+') {
            assert(t.drop_first() =~= s@.subrange(d0 as int, hi as int));
        } else {
            assert(t =~= s@.subrange(d0 as int, hi as int));
        }
    }
    let body_ok = d0 < hi && range_all_digits(s, d0, hi);
    if !body_ok {
        return None;
    }
    let mut z = d0;
    while z < hi && s[z] == '0'
        invariant
            d0 <= z <= hi <= s@.len(),
            forall|k: int| d0 <= k < z ==> s@[k] == '0',
        decreases hi - z,
    {
        z = z + 1;
    }
    let ghost body = s@.subrange(d0 as int, hi as int);
    proof {
        lemma_leading_zeros(body, (z - d0) as int);
        assert(body.skip((z - d0) as int) =~= s@.subrange(z as int, hi as int));
        assert(all_digits(s@.subrange(z as int, hi as int))) by {
            assert forall|k: int| 0 <= k < hi - z implies is_digit(
                #[trigger] s@.subrange(z as int, hi as int)[k],
            ) by {
                assert(s@.subrange(z as int, hi as int)[k] == body[k + z - d0]);
            }
        }
    }
    if hi - z > 20 {
        proof {
            let w = s@.subrange(z as int, hi as int);
            assert(w[0] == s@[z as int]);
            lemma_digits_lower(w);
            lemma_pow10_mono(20, (w.len() - 1) as nat);
            lemma_pow10_20();
        }
        if neg {
            Some(ExpSize::HugeNeg)
        } else {
            Some(ExpSize::HugePos)
        }
    } else {
        let v = small_digits(s, z, hi);
        if neg {
            Some(ExpSize::Small(-(v as i128)))
        } else {
            Some(ExpSize::Small(v as i128))
        }
    }
}

/// Take apart a number text `s[lo..hi]`; `None` unless it has the
/// `Sign? Number` form (the words `inf` and `nan` included).
#[verifier::rlimit(50)]
#[verifier::spinoff_prover]
pub fn scan_number(s: &[char], lo: usize, hi: usize) -> (r: Option<NumberParts>)
    requires
        lo <= hi <= s@.len(),
    ensures
        r is Some <==> number_syntax(unsigned_part(s@.subrange(lo as int, hi as int))),
        r matches Some(p) ==> parts_of(p, s@.subrange(lo as int, hi as int)),
        r matches Some(p) ==> (p.exp is Small || hi - lo > 21),
{
    let ghost t = s@.subrange(lo as int, hi as int);
    let signed = lo < hi && (s[lo] == '-' || s[lo] == '+');
    let neg = lo < hi && s[lo] == '-';
    let u0 = if signed {
        lo + 1
    } else {
        lo
    };
    let ghost u = unsigned_part(t);
    proof {
        if signed {
            assert(t.drop_first() =~= s@.subrange(u0 as int, hi as int));
        } else {
            assert(t =~= s@.subrange(u0 as int, hi as int));
        }
    }
    assert(u == s@.subrange(u0 as int, hi as int));
    let ep = find_e(s, u0, hi);
    assert(mantissa(u) =~= s@.subrange(u0 as int, ep as int));
    let dp = find_dot(s, u0, ep);
    assert(int_digits(u) =~= s@.subrange(u0 as int, dp as int));
    let f0 = if dp < ep {
        dp + 1
    } else {
        ep
    };
    proof {
        if dp < ep {
            assert(frac_digits(u) =~= s@.subrange(f0 as int, ep as int));
        } else {
            assert(frac_digits(u) =~= s@.subrange(f0 as int, ep as int));
        }
    }
    if !range_all_digits(s, u0, dp) || !range_all_digits(s, f0, ep) || (dp - u0) + (ep - f0)
        == 0 {
        return None;
    }
    let exp = if ep < hi {
        proof {
            assert(exponent_text(u) == Some(s@.subrange(ep + 1, hi as int)));
            assert(u.skip(e_pos(u) as int + 1) =~= s@.subrange(ep + 1, hi as int));
        }
        match scan_exponent(s, ep + 1, hi) {
            Some(x) => x,
            None => {
                return None;
            },
        }
    } else {
        ExpSize::Small(0)
    };
    let mut digits: Vec<char> = Vec::new();
    let mut i = u0;
    while i < dp
        invariant
            u0 <= i <= dp <= s@.len(),
            digits@ == s@.subrange(u0 as int, i as int),
        decreases dp - i,
    {
        digits.push(s[i]);
        i = i + 1;
        assert(digits@ =~= s@.subrange(u0 as int, i as int));
    }
    let mut j = f0;
    while j < ep
        invariant
            f0 <= j <= ep <= s@.len(),
            digits@ == s@.subrange(u0 as int, dp as int) + s@.subrange(f0 as int, j as int),
        decreases ep - j,
    {
        digits.push(s[j]);
        j = j + 1;
        assert(digits@ =~= s@.subrange(u0 as int, dp as int) + s@.subrange(f0 as int, j as int));
    }
    proof {
        let a = s@.subrange(u0 as int, dp as int);
        let b = s@.subrange(f0 as int, ep as int);
        assert forall|k: int| 0 <= k < digits@.len() implies is_digit(#[trigger] digits@[k]) by {
            if k < a.len() {
                assert(digits@[k] == a[k]);
            } else {
                assert(digits@[k] == b[k - a.len()]);
            }
        }
    }
    Some(NumberParts { neg, digits, frac_len: ep - f0, exp })
}

/// A magnitude with the exponent of its last digit: `digits * 10^exp`,
/// digits without leading zeros.
pub open spec fn normal(d: Seq<char>) -> bool {
    d.len() > 0 && all_digits(d) && d[0] != '0'
}

proof fn lemma_digits_split(x: Seq<char>, k: int)
    requires
        0 <= k <= x.len(),
    ensures
        digits_value(x) == digits_value(x.take(k)) * pow10((x.len() - k) as nat) + digits_value(
            x.skip(k),
        ),
{
    lemma_digits_concat(x.take(k), x.skip(k));
    assert(x.take(k) + x.skip(k) =~= x);
}

proof fn lemma_all_digits_sub(x: Seq<char>, a: int, b: int)
    requires
        all_digits(x),
        0 <= a <= b <= x.len(),
    ensures
        all_digits(x.subrange(a, b)),
{
    assert forall|k: int| 0 <= k < b - a implies is_digit(#[trigger] x.subrange(a, b)[k]) by {
        assert(x.subrange(a, b)[k] == x[a + k]);
    }
}

/// Equal length digit strings order as their first differing digit.
proof fn lemma_lex_lt(x: Seq<char>, y: Seq<char>, k: int)
    requires
        x.len() == y.len(),
        all_digits(x),
        all_digits(y),
        0 <= k < x.len(),
        x.take(k) == y.take(k),
        x[k] < y[k],
    ensures
        digits_value(x) < digits_value(y),
{
    let n = x.len();
    lemma_digits_split(x, k + 1);
    lemma_digits_split(y, k + 1);
    let xp = x.take(k + 1);
    let yp = y.take(k + 1);
    assert(xp.drop_last() =~= x.take(k));
    assert(yp.drop_last() =~= y.take(k));
    assert(is_digit(x[k]) && is_digit(y[k]));
    assert(digits_value(xp) < digits_value(yp));
    lemma_all_digits_sub(x, k + 1, n as int);
    assert(x.skip(k + 1) =~= x.subrange(k + 1, n as int));
    lemma_digits_upper(x.skip(k + 1));
    let p = pow10((n - (k + 1)) as nat);
    let vx = digits_value(xp);
    let vy = digits_value(yp);
    let rx = digits_value(x.skip(k + 1));
    let ry = digits_value(y.skip(k + 1));
    assert(vx * p + rx < vy * p + ry) by (nonlinear_arith)
        requires
            vx < vy,
            rx < p,
    ;
}

/// A digit string followed by `n` zeros.
pub open spec fn padded(d: Seq<char>, n: nat) -> Seq<char> {
    d + Seq::new(n, |i: int| '0')
}

proof fn lemma_padded(d: Seq<char>, n: nat)
    ensures
        digits_value(padded(d, n)) == digits_value(d) * pow10(n),
        all_digits(d) ==> all_digits(padded(d, n)),
{
    let z = Seq::new(n, |i: int| '0');
    lemma_digits_concat(d, z);
    lemma_digits_zero(z);
    assert forall|k: int| 0 <= k < padded(d, n).len() && all_digits(d) implies is_digit(
        #[trigger] padded(d, n)[k],
    ) by {
        if k < d.len() {
            assert(padded(d, n)[k] == d[k]);
        }
    }
}

/// Orders of magnitude: `10^(len - 1 + e) <= d * 10^e < 10^(len + e)`,
/// stated against a second value scaled to a common exponent.
proof fn lemma_order_lt(a: Seq<char>, ea: int, b: Seq<char>, eb: int)
    requires
        normal(a),
        normal(b),
        a.len() + ea < b.len() + eb,
    ensures
        value_lt((digits_value(a) as int, ea), (digits_value(b) as int, eb)),
{
    let e = if ea < eb {
        ea
    } else {
        eb
    };
    let sa = (ea - e) as nat;
    let sb = (eb - e) as nat;
    lemma_digits_upper(a);
    lemma_digits_lower(b);
    let da = digits_value(a);
    let db = digits_value(b);
    // da * 10^sa < 10^(len a + sa) <= 10^(len b - 1 + sb) <= db * 10^sb
    lemma_pow10_add(a.len(), sa);
    lemma_pow10_add((b.len() - 1) as nat, sb);
    lemma_pow10_mono(a.len() + sa, (b.len() - 1 + sb) as nat);
    lemma_pow10_positive(sa);
    lemma_pow10_positive(sb);
    let pa = pow10(sa);
    let pb = pow10(sb);
    assert(da * pa < pow10(a.len()) * pa) by (nonlinear_arith)
        requires
            da < pow10(a.len()),
            pa >= 1,
    ;
    assert(pow10((b.len() - 1) as nat) * pb <= db * pb) by (nonlinear_arith)
        requires
            pow10((b.len() - 1) as nat) <= db,
            pb >= 1,
    ;
}

/// Equal orders of magnitude compare as the padded digit strings do.
proof fn lemma_order_eq(a: Seq<char>, ea: int, b: Seq<char>, eb: int, n: nat)
    requires
        normal(a),
        normal(b),
        a.len() + ea == b.len() + eb,
        n >= a.len(),
        n >= b.len(),
        n == a.len() || n == b.len(),
    ensures
        value_lt((digits_value(a) as int, ea), (digits_value(b) as int, eb)) <==> digits_value(
            padded(a, (n - a.len()) as nat),
        ) < digits_value(padded(b, (n - b.len()) as nat)),
        (digits_value(padded(a, (n - a.len()) as nat)) == digits_value(
            padded(b, (n - b.len()) as nat),
        )) ==> !value_lt((digits_value(a) as int, ea), (digits_value(b) as int, eb))
            && !value_lt((digits_value(b) as int, eb), (digits_value(a) as int, ea)),
{
    lemma_padded(a, (n - a.len()) as nat);
    lemma_padded(b, (n - b.len()) as nat);
    let e = if ea < eb {
        ea
    } else {
        eb
    };
    assert((ea - e) as nat == (n - a.len()) as nat);
    assert((eb - e) as nat == (n - b.len()) as nat);
}

/// The offsets of the first and last nonzero digit of `d`, or `None` when
/// every digit is zero.
fn significant_digits(d: &[char]) -> (r: Option<(usize, usize)>)
    requires
        all_digits(d@),
    ensures
        r is None ==> digits_value(d@) == 0,
        r matches Some((f, l)) ==> {
            &&& f <= l < d@.len()
            &&& normal(d@.subrange(f as int, l + 1))
            &&& d@[l as int] != '0'
            &&& digits_value(d@) == digits_value(d@.subrange(f as int, l + 1)) * pow10(
                (d@.len() - 1 - l) as nat,
            )
        },
{
    let mut f: usize = 0;
    while f < d.len() && d[f] == '0'
        invariant
            f <= d@.len(),
            forall|k: int| 0 <= k < f ==> d@[k] == '0',
        decreases d@.len() - f,
    {
        f = f + 1;
    }
    if f == d.len() {
        proof {
            lemma_digits_zero(d@);
        }
        return None;
    }
    let mut l: usize = d.len() - 1;
    while d[l] == '0'
        invariant
            f <= l < d@.len(),
            d@[f as int] != '0',
            forall|k: int| l < k < d@.len() ==> d@[k] == '0',
        decreases l,
    {
        l = l - 1;
    }
    proof {
        lemma_leading_zeros(d@, f as int);
        let tail = d@.skip(f as int);
        let sig = d@.subrange(f as int, l + 1);
        let zs = d@.subrange(l + 1, d@.len() as int);
        assert(tail =~= sig + zs);
        lemma_digits_concat(sig, zs);
        lemma_digits_zero(zs);
        lemma_all_digits_sub(d@, f as int, l + 1);
    }
    Some((f, l))
}

/// The character at `i` of `d` followed by zeros.
fn padded_at(d: &[char], lo: usize, hi: usize, i: usize, n: usize) -> (c: char)
    requires
        lo <= hi <= d@.len(),
        i < n,
        hi - lo <= n,
    ensures
        c == padded(d@.subrange(lo as int, hi as int), (n - (hi - lo)) as nat)[i as int],
{
    if i < hi - lo {
        d[lo + i]
    } else {
        '0'
    }
}

/// Compare two digit strings padded with zeros to the longer length.
fn compare_padded(a: &[char], alo: usize, ahi: usize, b: &[char], blo: usize, bhi: usize) -> (r: i8)
    requires
        alo <= ahi <= a@.len(),
        blo <= bhi <= b@.len(),
        all_digits(a@.subrange(alo as int, ahi as int)),
        all_digits(b@.subrange(blo as int, bhi as int)),
    ensures
        ({
            let n = if ahi - alo < bhi - blo {
                bhi - blo
            } else {
                ahi - alo
            };
            let x = digits_value(padded(a@.subrange(alo as int, ahi as int), (n - (ahi - alo)) as nat));
            let y = digits_value(padded(b@.subrange(blo as int, bhi as int), (n - (bhi - blo)) as nat));
            &&& r == 0 ==> x == y
            &&& r < 0 ==> x < y
            &&& r > 0 ==> x > y
        }),
{
    let la = ahi - alo;
    let lb = bhi - blo;
    let n = if la < lb {
        lb
    } else {
        la
    };
    let ghost x = padded(a@.subrange(alo as int, ahi as int), (n - la) as nat);
    let ghost y = padded(b@.subrange(blo as int, bhi as int), (n - lb) as nat);
    proof {
        lemma_padded(a@.subrange(alo as int, ahi as int), (n - la) as nat);
        lemma_padded(b@.subrange(blo as int, bhi as int), (n - lb) as nat);
    }
    let mut i: usize = 0;
    while i < n
        invariant
            i <= n,
            x.len() == n,
            y.len() == n,
            lo_hi_ok(alo, ahi, a@.len()),
            lo_hi_ok(blo, bhi, b@.len()),
            la == ahi - alo,
            lb == bhi - blo,
            la <= n,
            lb <= n,
            n == (if la < lb {
                lb
            } else {
                la
            }),
            x == padded(a@.subrange(alo as int, ahi as int), (n - la) as nat),
            y == padded(b@.subrange(blo as int, bhi as int), (n - lb) as nat),
            all_digits(x),
            all_digits(y),
            x.take(i as int) == y.take(i as int),
        decreases n - i,
    {
        let ca = padded_at(a, alo, ahi, i, n);
        let cb = padded_at(b, blo, bhi, i, n);
        if ca < cb {
            proof {
                lemma_lex_lt(x, y, i as int);
            }
            return -1;
        }
        if ca > cb {
            proof {
                lemma_lex_lt(y, x, i as int);
            }
            return 1;
        }
        assert(x.take(i + 1) =~= x.take(i as int).push(x[i as int]));
        assert(y.take(i + 1) =~= y.take(i as int).push(y[i as int]));
        i = i + 1;
    }
    assert(x =~= x.take(n as int));
    assert(y =~= y.take(n as int));
    0
}

pub open spec fn lo_hi_ok(lo: usize, hi: usize, len: nat) -> bool {
    lo <= hi <= len
}

/// Compare `da * 10^ea` with `db * 10^eb` for two normal digit strings.
fn compare_scaled(
    a: &[char],
    alo: usize,
    ahi: usize,
    ea: i128,
    b: &[char],
    blo: usize,
    bhi: usize,
    eb: i128,
) -> (r: i8)
    requires
        alo <= ahi <= a@.len(),
        blo <= bhi <= b@.len(),
        normal(a@.subrange(alo as int, ahi as int)),
        normal(b@.subrange(blo as int, bhi as int)),
        -exp_cap() * 4 < ea < exp_cap() * 4,
        -exp_cap() * 4 < eb < exp_cap() * 4,
    ensures
        ({
            let va = (digits_value(a@.subrange(alo as int, ahi as int)) as int, ea as int);
            let vb = (digits_value(b@.subrange(blo as int, bhi as int)) as int, eb as int);
            &&& r < 0 <==> value_lt(va, vb)
            &&& r > 0 <==> value_lt(vb, va)
        }),
{
    let ghost sa = a@.subrange(alo as int, ahi as int);
    let ghost sb = b@.subrange(blo as int, bhi as int);
    let oa: i128 = (ahi - alo) as i128 + ea;
    let ob: i128 = (bhi - blo) as i128 + eb;
    if oa < ob {
        proof {
            lemma_order_lt(sa, ea as int, sb, eb as int);
            lemma_value_lt_asym((digits_value(sa) as int, ea as int), (digits_value(sb) as int, eb as int));
        }
        return -1;
    }
    if ob < oa {
        proof {
            lemma_order_lt(sb, eb as int, sa, ea as int);
            lemma_value_lt_asym((digits_value(sb) as int, eb as int), (digits_value(sa) as int, ea as int));
        }
        return 1;
    }
    let c = compare_padded(a, alo, ahi, b, blo, bhi);
    proof {
        let n = if sa.len() < sb.len() {
            sb.len()
        } else {
            sa.len()
        };
        lemma_order_eq(sa, ea as int, sb, eb as int, n);
        lemma_order_eq(sb, eb as int, sa, ea as int, n);
    }
    c
}

proof fn lemma_value_lt_asym(a: (int, int), b: (int, int))
    requires
        value_lt(a, b),
    ensures
        !value_lt(b, a),
{
}

/// `value_lt` at any exponent no greater than both.
proof fn lemma_value_lt_common(a: (int, int), b: (int, int), c: int)
    requires
        c <= a.1,
        c <= b.1,
    ensures
        value_lt(a, b) <==> a.0 * pow10((a.1 - c) as nat) < b.0 * pow10((b.1 - c) as nat),
{
    let e = if a.1 < b.1 {
        a.1
    } else {
        b.1
    };
    let k = (e - c) as nat;
    lemma_pow10_add((a.1 - e) as nat, k);
    lemma_pow10_add((b.1 - e) as nat, k);
    assert((a.1 - e) as nat + k == (a.1 - c) as nat);
    assert((b.1 - e) as nat + k == (b.1 - c) as nat);
    lemma_pow10_positive(k);
    let pa = pow10((a.1 - e) as nat);
    let pb = pow10((b.1 - e) as nat);
    let pk = pow10(k);
    assert((a.0 * pa < b.0 * pb) <==> (a.0 * (pa * pk) < b.0 * (pb * pk))) by (nonlinear_arith)
        requires
            pk >= 1,
    ;
}

/// Trailing zeros can move between the digits and the exponent.
proof fn lemma_value_lt_shift_left(d: int, t: nat, e: int, b: (int, int))
    ensures
        value_lt((d * pow10(t), e), b) <==> value_lt((d, e + t), b),
{
    let c = if e < b.1 {
        e
    } else {
        b.1
    };
    lemma_value_lt_common((d * pow10(t), e), b, c);
    lemma_value_lt_common((d, e + t), b, c);
    lemma_pow10_add(t, (e - c) as nat);
    assert(t + (e - c) as nat == (e + t - c) as nat);
    assert(d * pow10(t) * pow10((e - c) as nat) == d * (pow10(t) * pow10((e - c) as nat)))
        by (nonlinear_arith);
}

proof fn lemma_value_lt_shift_right(a: (int, int), d: int, t: nat, e: int)
    ensures
        value_lt(a, (d * pow10(t), e)) <==> value_lt(a, (d, e + t)),
{
    let c = if e < a.1 {
        e
    } else {
        a.1
    };
    lemma_value_lt_common(a, (d * pow10(t), e), c);
    lemma_value_lt_common(a, (d, e + t), c);
    lemma_pow10_add(t, (e - c) as nat);
    assert(t + (e - c) as nat == (e + t - c) as nat);
    assert(d * pow10(t) * pow10((e - c) as nat) == d * (pow10(t) * pow10((e - c) as nat)))
        by (nonlinear_arith);
}

proof fn lemma_value_lt_neg(a: (int, int), b: (int, int))
    ensures
        value_lt((-a.0, a.1), (-b.0, b.1)) <==> value_lt(b, a),
{
    let e = if a.1 < b.1 {
        a.1
    } else {
        b.1
    };
    let pa = pow10((a.1 - e) as nat);
    let pb = pow10((b.1 - e) as nat);
    assert((-a.0) * pa == -(a.0 * pa)) by (nonlinear_arith);
    assert((-b.0) * pb == -(b.0 * pb)) by (nonlinear_arith);
}

proof fn lemma_value_lt_zero(a: (int, int), b: (int, int))
    requires
        a.0 == 0 || b.0 == 0,
    ensures
        value_lt(a, b) <==> (a.0 < 0 || b.0 > 0),
{
    let e = if a.1 < b.1 {
        a.1
    } else {
        b.1
    };
    let pa = pow10((a.1 - e) as nat);
    let pb = pow10((b.1 - e) as nat);
    lemma_pow10_positive((a.1 - e) as nat);
    lemma_pow10_positive((b.1 - e) as nat);
    assert(a.0 * pa < 0 <==> a.0 < 0) by (nonlinear_arith)
        requires
            pa >= 1,
    ;
    assert(b.0 * pb > 0 <==> b.0 > 0) by (nonlinear_arith)
        requires
            pb >= 1,
    ;
    assert(a.0 == 0 ==> a.0 * pa == 0);
    assert(b.0 == 0 ==> b.0 * pb == 0);
}

/// `below` is `value_lt` against a whole number.
proof fn lemma_below_value_lt(m: nat, e: int, bound: nat)
    ensures
        below(m, e, bound) <==> value_lt((m as int, e), (bound as int, 0)),
{
    assert(pow10(0) == 1);
    if e < 0 {
        lemma_value_lt_common((m as int, e), (bound as int, 0), e);
        assert(((0 - e) as nat) == (-e) as nat);
        assert((m as int) * pow10(0) == m);
    } else {
        lemma_value_lt_common((m as int, e), (bound as int, 0), 0);
        assert((bound as int) * pow10(0) == bound);
    }
}

/// Whether `s[lo..hi]` spells the lower case word `w` in any case.
fn range_word_ci(s: &[char], lo: usize, hi: usize, w: &str) -> (b: bool)
    requires
        lo <= hi <= s@.len(),
    ensures
        b == word_ci(s@.subrange(lo as int, hi as int), w@),
{
    let wc = chars_of(w);
    if hi - lo != wc.len() {
        return false;
    }
    let mut i: usize = 0;
    while i < wc.len()
        invariant
            wc@ == w@,
            lo <= hi <= s@.len(),
            hi - lo == wc@.len(),
            i <= wc@.len(),
            forall|k: int| 0 <= k < i ==> ascii_lower(#[trigger] s@[lo + k]) == wc@[k],
        decreases wc@.len() - i,
    {
        if to_ascii_lower(s[lo + i]) != wc[i] {
            assert(s@.subrange(lo as int, hi as int)[i as int] == s@[lo + i]);
            return false;
        }
        i = i + 1;
    }
    assert forall|k: int| 0 <= k < hi - lo implies ascii_lower(
        #[trigger] s@.subrange(lo as int, hi as int)[k],
    ) == w@[k] by {
        assert(s@.subrange(lo as int, hi as int)[k] == s@[lo + k]);
    }
    true
}

/// The offset after an optional sign of `s[lo..hi]`.
fn unsigned_start(s: &[char], lo: usize, hi: usize) -> (u: usize)
    requires
        lo <= hi <= s@.len(),
    ensures
        lo <= u <= hi,
        s@.subrange(u as int, hi as int) == unsigned_part(s@.subrange(lo as int, hi as int)),
{
    if lo < hi && (s[lo] == '-' || s[lo] == '+') {
        assert(s@.subrange(lo as int, hi as int).drop_first() =~= s@.subrange(lo + 1, hi as int));
        lo + 1
    } else {
        lo
    }
}

/// Whether `s[lo..hi].parse::<f64>()` succeeds.
pub fn real_ok(s: &[char], lo: usize, hi: usize) -> (b: bool)
    requires
        lo <= hi <= s@.len(),
    ensures
        b == real_syntax(s@.subrange(lo as int, hi as int)),
{
    let u = unsigned_start(s, lo, hi);
    proof {
        reveal_strlit("inf");
        reveal_strlit("infinity");
        reveal_strlit("nan");
    }
    let special = range_word_ci(s, u, hi, "inf") || range_word_ci(s, u, hi, "infinity")
        || range_word_ci(s, u, hi, "nan");
    assert("inf"@ =~= seq!['i', 'n', 'f']);
    assert("infinity"@ =~= seq!['i', 'n', 'f', 'i', 'n', 'i', 't', 'y']);
    assert("nan"@ =~= seq!['n', 'a', 'n']);
    special || scan_number(s, lo, hi).is_some()
}

/// The digits of the overflow threshold `2^1024 - 2^970`.
pub open spec fn overflow_digits() -> Seq<char> {
    "179769313486231580793728971405303415079934132710037826936173778980444968292764750946649017977587207096330286416692887910946555547851940402630657488671505820681908902000708383676273854845817711531764475730270069855571366959622842914819860834936475292719074168444365510704342711559699508093042880177904174497792"@
}

fn overflow_chars() -> (v: Vec<char>)
    ensures
        v@ == overflow_digits(),
        normal(v@),
        v@.len() == 309,
{
    let v = chars_of(
        "179769313486231580793728971405303415079934132710037826936173778980444968292764750946649017977587207096330286416692887910946555547851940402630657488671505820681908902000708383676273854845817711531764475730270069855571366959622842914819860834936475292719074168444365510704342711559699508093042880177904174497792",
    );
    proof {
        reveal_strlit(
            "179769313486231580793728971405303415079934132710037826936173778980444968292764750946649017977587207096330286416692887910946555547851940402630657488671505820681908902000708383676273854845817711531764475730270069855571366959622842914819860834936475292719074168444365510704342711559699508093042880177904174497792",
        );
    }
    v
}

/// The magnitude of a number in its significant digits: `digits * 10^tz`.
proof fn lemma_magnitude_split(p: NumberParts, t: Seq<char>, f: int, l: int)
    requires
        parts_of(p, t),
        0 <= f <= l < p.digits@.len(),
        digits_value(p.digits@) == digits_value(p.digits@.subrange(f, l + 1)) * pow10(
            (p.digits@.len() - 1 - l) as nat,
        ),
    ensures
        magnitude(unsigned_part(t)) == digits_value(p.digits@.subrange(f, l + 1)) * pow10(
            (p.digits@.len() - 1 - l) as nat,
        ),
{
}

/// Whether the double `s[lo..hi]` parses to is finite.
pub fn real_finite(s: &[char], lo: usize, hi: usize) -> (b: bool)
    requires
        lo <= hi <= s@.len(),
    ensures
        b == finite_real(s@.subrange(lo as int, hi as int)),
{
    let ghost t = s@.subrange(lo as int, hi as int);
    let ghost u = unsigned_part(t);
    let p = match scan_number(s, lo, hi) {
        Some(p) => p,
        None => {
            return false;
        },
    };
    let tdig = overflow_chars();
    proof {
        lemma_digits_upper(tdig@);
        lemma_digits_lower(tdig@);
    }
    match significant_digits(&p.digits) {
        None => {
            proof {
                lemma_pow10_positive((-scale(u)) as nat);
                assert(magnitude(u) == 0);
                if scale(u) >= 0 {
                    assert(0 * pow10(scale(u) as nat) == 0);
                } else {
                    assert(f64_overflow() * pow10((-scale(u)) as nat) >= 1) by (nonlinear_arith)
                        requires
                            f64_overflow() >= 1,
                            pow10((-scale(u)) as nat) >= 1,
                    ;
                }
            }
            true
        },
        Some((f, l)) => {
            let ghost d = p.digits@.subrange(f as int, l + 1);
            let ghost tz = (p.digits@.len() - 1 - l) as nat;
            proof {
                lemma_magnitude_split(p, t, f as int, l as int);
                lemma_digits_lower(d);
                lemma_pow10_positive(tz);
                lemma_pow10_positive((d.len() - 1) as nat);
                assert(magnitude(u) >= 1) by (nonlinear_arith)
                    requires
                        magnitude(u) == digits_value(d) * pow10(tz),
                        digits_value(d) >= pow10((d.len() - 1) as nat),
                        pow10((d.len() - 1) as nat) >= 1,
                        pow10(tz) >= 1,
                ;
            }
            match p.exp {
                ExpSize::HugePos => {
                    proof {
                        let sc = scale(u);
                        assert(sc >= 310);
                        lemma_pow10_mono(309, sc as nat);
                        assert(magnitude(u) * pow10(sc as nat) >= pow10(sc as nat)) by (nonlinear_arith)
                            requires
                                magnitude(u) >= 1,
                        ;
                    }
                    false
                },
                ExpSize::HugeNeg => {
                    let dl = p.digits.len();
                    proof {
                        let sc = scale(u);
                        let k = (-sc) as nat;
                        assert(dl <= usize::MAX);
                        lemma_digits_upper(p.digits@);
                        assert(p.digits@.len() <= k);
                        lemma_pow10_mono(p.digits@.len(), k);
                        lemma_pow10_positive(k);
                        assert(magnitude(u) < f64_overflow() * pow10(k)) by (nonlinear_arith)
                            requires
                                magnitude(u) < pow10(k),
                                f64_overflow() >= 1,
                        ;
                    }
                    true
                },
                ExpSize::Small(x) => {
                    let e: i128 = x - p.frac_len as i128 + (p.digits.len() - 1 - l) as i128;
                    let c = compare_scaled(&p.digits, f, l + 1, e, &tdig, 0, tdig.len(), 0);
                    proof {
                        assert(tdig@.subrange(0, 309) =~= tdig@);
                        let sc = scale(u);
                        assert(e == sc + tz);
                        lemma_below_value_lt(magnitude(u), sc, f64_overflow());
                        lemma_value_lt_shift_left(digits_value(d) as int, tz, sc, (f64_overflow() as int, 0));
                    }
                    c < 0
                },
            }
        },
    }
}

proof fn lemma_integral_shift(dd: nat, tz: nat, sc: int)
    ensures
        integral_of(dd * pow10(tz), sc) == integral_of(dd, sc + tz),
{
    let m = dd * pow10(tz);
    lemma_pow10_positive(tz);
    if sc >= 0 {
        lemma_pow10_add(tz, sc as nat);
        assert((sc + tz) as nat == tz + sc as nat);
        assert(dd * pow10(tz) * pow10(sc as nat) == dd * (pow10(tz) * pow10(sc as nat)))
            by (nonlinear_arith);
    } else {
        let k = (-sc) as nat;
        lemma_pow10_positive(k);
        if sc + tz >= 0 {
            let r = (sc + tz) as nat;
            assert(r + k == tz);
            lemma_pow10_add(r, k);
            assert(m == (dd * pow10(r)) * pow10(k)) by (nonlinear_arith)
                requires
                    m == dd * pow10(tz),
                    pow10(tz) == pow10(r) * pow10(k),
            ;
            vstd::arithmetic::div_mod::lemma_mod_multiples_basic((dd * pow10(r)) as int, pow10(k) as int);
            vstd::arithmetic::div_mod::lemma_div_multiples_vanish((dd * pow10(r)) as int, pow10(k) as int);
            assert(pow10(k) * (dd * pow10(r)) == (dd * pow10(r)) * pow10(k)) by (nonlinear_arith);
        } else {
            let j = (-(sc + tz)) as nat;
            assert(tz + j == k);
            lemma_pow10_add(tz, j);
            lemma_pow10_positive(j);
            let pj = pow10(j);
            let pt = pow10(tz);
            let pk = pow10(k);
            if dd % pj == 0 {
                vstd::arithmetic::div_mod::lemma_fundamental_div_mod(dd as int, pj as int);
                let q = dd / pj;
                assert(m == q * pk) by (nonlinear_arith)
                    requires
                        m == dd * pt,
                        dd == pj * q,
                        pk == pt * pj,
                ;
                vstd::arithmetic::div_mod::lemma_mod_multiples_basic(q as int, pk as int);
                vstd::arithmetic::div_mod::lemma_div_multiples_vanish(q as int, pk as int);
                assert(pk * q == q * pk) by (nonlinear_arith);
            } else {
                if m % pk == 0 {
                    vstd::arithmetic::div_mod::lemma_fundamental_div_mod(m as int, pk as int);
                    let q = m / pk;
                    assert(dd * pt == (pj * q) * pt) by (nonlinear_arith)
                        requires
                            m == dd * pt,
                            m == pk * q,
                            pk == pt * pj,
                    ;
                    assert(dd == pj * q) by (nonlinear_arith)
                        requires
                            dd * pt == (pj * q) * pt,
                            pt >= 1,
                    ;
                    vstd::arithmetic::div_mod::lemma_mod_multiples_basic(q as int, pj as int);
                    assert(pj * q == q * pj) by (nonlinear_arith);
                    assert(false);
                }
            }
        }
    }
}

/// A number whose last digit is not zero is no multiple of ten.
proof fn lemma_last_digit_mod(d: Seq<char>)
    requires
        normal(d),
        d.last() != '0',
    ensures
        digits_value(d) % 10 != 0,
{
    let v = digits_value(d.drop_last());
    assert(is_digit(d[d.len() - 1]));
    let r = digit_value(d.last());
    assert(1 <= r < 10);
    assert((v * 10 + r) % 10 == r) by (nonlinear_arith)
        requires
            1 <= r < 10,
    ;
}

proof fn lemma_not_multiple(dd: nat, j: nat)
    requires
        dd % 10 != 0,
        j >= 1,
    ensures
        dd % pow10(j) != 0,
{
    lemma_pow10_positive(j);
    lemma_pow10_positive((j - 1) as nat);
    if dd % pow10(j) == 0 {
        vstd::arithmetic::div_mod::lemma_fundamental_div_mod(dd as int, pow10(j) as int);
        let q = dd / pow10(j);
        let w = pow10((j - 1) as nat) * q;
        assert(dd == w * 10) by (nonlinear_arith)
            requires
                dd == pow10(j) * q,
                pow10(j) == 10 * pow10((j - 1) as nat),
                w == pow10((j - 1) as nat) * q,
        ;
        vstd::arithmetic::div_mod::lemma_mod_multiples_basic(w as int, 10);
    }
}

/// `dd * 10^e` when it is below `9e15`, for a digit string `d` of `dd`.
#[verifier::spinoff_prover]
#[verifier::rlimit(40)]
fn scaled_below_limit(d: &[char], f: usize, l: usize, e: i128) -> (r: Option<u64>)
    requires
        f <= l < d@.len(),
        normal(d@.subrange(f as int, l + 1)),
        0 <= e < exp_cap() * 4,
    ensures
        ({
            let dd = digits_value(d@.subrange(f as int, l + 1));
            let v = dd * pow10(e as nat);
            &&& r matches Some(x) ==> x as nat == v && v < 9_000_000_000_000_000
            &&& r is None ==> v >= 9_000_000_000_000_000
        }),
{
    let ghost dsub = d@.subrange(f as int, l + 1);
    let ghost dd = digits_value(dsub);
    proof {
        lemma_digits_lower(dsub);
        lemma_digits_upper(dsub);
        lemma_pow10_positive((dsub.len() - 1) as nat);
        lemma_pow10_positive(e as nat);
    }
    let n = d.len();
    assert(l < n);
    let len = l - f + 1;
    if len as i128 + e > 16 {
        proof {
            lemma_pow10_add((dsub.len() - 1) as nat, e as nat);
            lemma_pow10_mono(16, (dsub.len() - 1 + e) as nat);
            reveal_with_fuel(pow10, 17);
            assert(dd * pow10(e as nat) >= pow10((dsub.len() - 1) as nat) * pow10(e as nat))
                by (nonlinear_arith)
                requires
                    dd >= pow10((dsub.len() - 1) as nat),
            ;
        }
        return None;
    }
    let base = small_digits(d, f, l + 1);
    proof {
        lemma_pow10_mono(dsub.len(), 16);
        reveal_with_fuel(pow10, 17);
    }
    let mut v: u64 = base as u64;
    let mut k: i128 = 0;
    proof {
        lemma_pow10_mono(dsub.len(), 16);
        reveal_with_fuel(pow10, 17);
        assert(pow10(0) == 1);
        assert(dd * 1 == dd);
        assert(v as nat == dd);
    }
    while k < e
        invariant
            0 <= k <= e,
            len + e <= 16,
            dsub.len() == len,
            dd < pow10(dsub.len()),
            v as nat == dd * pow10(k as nat),
            pow10(16) == 10_000_000_000_000_000,
        decreases e - k,
    {
        proof {
            lemma_pow10_add(dsub.len(), (k + 1) as nat);
            lemma_pow10_mono(dsub.len() + (k + 1) as nat, 16);
            lemma_pow10_positive((k + 1) as nat);
            assert(dd * pow10((k + 1) as nat) < pow10(dsub.len()) * pow10((k + 1) as nat))
                by (nonlinear_arith)
                requires
                    dd < pow10(dsub.len()),
                    pow10((k + 1) as nat) >= 1,
            ;
            assert(pow10((k + 1) as nat) == 10 * pow10(k as nat));
            assert(dd * pow10((k + 1) as nat) == (dd * pow10(k as nat)) * 10) by (nonlinear_arith)
                requires
                    pow10((k + 1) as nat) == 10 * pow10(k as nat),
            ;
        }
        v = v * 10;
        k = k + 1;
    }
    if v < 9_000_000_000_000_000 {
        Some(v)
    } else {
        None
    }
}

/// The integer `s[lo..hi]` spells as a real, as `real_integer` states it.
#[verifier::spinoff_prover]
pub fn real_integer_value(s: &[char], lo: usize, hi: usize) -> (r: Option<i64>)
    requires
        lo <= hi <= s@.len(),
    ensures
        r matches Some(v) ==> real_integer(s@.subrange(lo as int, hi as int)) == Some(v as int),
        r is None ==> real_integer(s@.subrange(lo as int, hi as int)) is None,
{
    let ghost t = s@.subrange(lo as int, hi as int);
    let ghost u = unsigned_part(t);
    let p = match scan_number(s, lo, hi) {
        Some(p) => p,
        None => {
            return None;
        },
    };
    let dl = p.digits.len();
    match significant_digits(&p.digits) {
        None => {
            proof {
                lemma_pow10_positive((-scale(u)) as nat);
                assert(magnitude(u) == 0);
                if scale(u) >= 0 {
                    assert(0 * pow10(scale(u) as nat) == 0);
                } else {
                    assert(0nat % pow10((-scale(u)) as nat) == 0) by (nonlinear_arith)
                        requires
                            pow10((-scale(u)) as nat) >= 1,
                    ;
                    assert(0nat / pow10((-scale(u)) as nat) == 0) by (nonlinear_arith)
                        requires
                            pow10((-scale(u)) as nat) >= 1,
                    ;
                }
            }
            Some(0)
        },
        Some((f, l)) => {
            let ghost d = p.digits@.subrange(f as int, l + 1);
            let ghost tz = (p.digits@.len() - 1 - l) as nat;
            let ghost dd = digits_value(d);
            proof {
                assert(dl <= usize::MAX);
                lemma_magnitude_split(p, t, f as int, l as int);
                lemma_integral_shift(dd, tz, scale(u));
                lemma_digits_lower(d);
                lemma_pow10_positive((d.len() - 1) as nat);
                assert(d.last() == p.digits@[l as int]);
                lemma_last_digit_mod(d);
            }
            match p.exp {
                ExpSize::HugePos => {
                    proof {
                        let e = scale(u) + tz;
                        lemma_pow10_mono(16, e as nat);
                        reveal_with_fuel(pow10, 17);
                        assert(dd * pow10(e as nat) >= pow10(e as nat)) by (nonlinear_arith)
                            requires
                                dd >= 1,
                        ;
                    }
                    None
                },
                ExpSize::HugeNeg => {
                    proof {
                        let e = scale(u) + tz;
                        lemma_not_multiple(dd, (-e) as nat);
                    }
                    None
                },
                ExpSize::Small(x) => {
                    let e: i128 = x - p.frac_len as i128 + (p.digits.len() - 1 - l) as i128;
                    assert(e == scale(u) + tz);
                    if e < 0 {
                        proof {
                            lemma_not_multiple(dd, (-e) as nat);
                        }
                        return None;
                    }
                    match scaled_below_limit(&p.digits, f, l, e) {
                        Some(v) => if p.neg {
                            Some(-(v as i64))
                        } else {
                            Some(v as i64)
                        },
                        None => None,
                    }
                },
            }
        },
    }
}

proof fn lemma_value_lt_signs(a: (int, int), b: (int, int))
    requires
        a.0 < 0 || b.0 < 0,
        a.0 > 0 || b.0 > 0,
    ensures
        value_lt(a, b) <==> a.0 < 0,
{
    let e = if a.1 < b.1 {
        a.1
    } else {
        b.1
    };
    let pa = pow10((a.1 - e) as nat);
    let pb = pow10((b.1 - e) as nat);
    lemma_pow10_positive((a.1 - e) as nat);
    lemma_pow10_positive((b.1 - e) as nat);
    assert(a.0 < 0 ==> a.0 * pa < 0) by (nonlinear_arith)
        requires
            pa >= 1,
    ;
    assert(a.0 > 0 ==> a.0 * pa > 0) by (nonlinear_arith)
        requires
            pa >= 1,
    ;
    assert(b.0 < 0 ==> b.0 * pb < 0) by (nonlinear_arith)
        requires
            pb >= 1,
    ;
    assert(b.0 > 0 ==> b.0 * pb > 0) by (nonlinear_arith)
        requires
            pb >= 1,
    ;
}

/// A number text brought to its significant digits.
pub struct Scaled {
    pub neg: bool,
    pub digits: Vec<char>,
    /// The first and last significant digit; `None` for zero.
    pub span: Option<(usize, usize)>,
    pub exp: i128,
}

pub open spec fn scaled_of(c: Scaled, t: Seq<char>) -> bool {
    let u = unsigned_part(t);
    &&& c.neg == is_negative(t)
    &&& number_syntax(u)
    &&& match c.span {
        None => magnitude(u) == 0,
        Some((f, l)) => {
            &&& f <= l < c.digits@.len()
            &&& normal(c.digits@.subrange(f as int, l + 1))
            &&& -exp_cap() * 3 < c.exp < exp_cap() * 3
            &&& exists|tz: nat|
                #![trigger pow10(tz)]
                magnitude(u) == digits_value(c.digits@.subrange(f as int, l + 1)) * pow10(tz)
                    && c.exp == scale(u) + tz
        },
    }
}

/// Bring a short number text to its significant digits.
fn scale_short(s: &[char], lo: usize, hi: usize) -> (r: Scaled)
    requires
        lo <= hi <= s@.len(),
        hi - lo <= 21,
        number_syntax(unsigned_part(s@.subrange(lo as int, hi as int))),
    ensures
        scaled_of(r, s@.subrange(lo as int, hi as int)),
{
    let ghost t = s@.subrange(lo as int, hi as int);
    let p = scan_number(s, lo, hi).unwrap();
    let dl = p.digits.len();
    let span = significant_digits(&p.digits);
    let exp = match (&p.exp, span) {
        (ExpSize::Small(x), Some((f, l))) => {
            proof {
                lemma_magnitude_split(p, t, f as int, l as int);
                assert(dl <= usize::MAX);
            }
            let e = *x - p.frac_len as i128 + (dl - 1 - l) as i128;
            proof {
                let tz = (dl - 1 - l) as nat;
                assert(pow10(tz) == pow10(tz));
            }
            e
        },
        _ => 0,
    };
    Scaled { neg: p.neg, digits: p.digits, span, exp }
}

/// Whether `s[lo..hi]` spells zero.
pub fn real_is_zero(s: &[char], lo: usize, hi: usize) -> (b: bool)
    requires
        lo <= hi <= s@.len(),
        hi - lo <= 21,
        number_syntax(unsigned_part(s@.subrange(lo as int, hi as int))),
    ensures
        b == (real_value(s@.subrange(lo as int, hi as int)).0 == 0),
{
    let c = scale_short(s, lo, hi);
    proof {
        if let Some((f, l)) = c.span {
            let u = unsigned_part(s@.subrange(lo as int, hi as int));
            let d = c.digits@.subrange(f as int, l + 1);
            let tz = choose|tz: nat|
                #![trigger pow10(tz)]
                magnitude(u) == digits_value(d) * pow10(tz) && c.exp == scale(u) + tz;
            lemma_digits_lower(d);
            lemma_pow10_positive(tz);
            lemma_pow10_positive((d.len() - 1) as nat);
            assert(digits_value(d) * pow10(tz) >= 1) by (nonlinear_arith)
                requires
                    digits_value(d) >= pow10((d.len() - 1) as nat),
                    pow10((d.len() - 1) as nat) >= 1,
                    pow10(tz) >= 1,
            ;
        }
    }
    c.span.is_none()
}

/// Whether `s[lo..hi]` spells a number above zero.
pub fn real_is_positive(s: &[char], lo: usize, hi: usize) -> (b: bool)
    requires
        lo <= hi <= s@.len(),
        hi - lo <= 21,
        number_syntax(unsigned_part(s@.subrange(lo as int, hi as int))),
    ensures
        b == (real_value(s@.subrange(lo as int, hi as int)).0 > 0),
{
    let z = real_is_zero(s, lo, hi);
    let neg = lo < hi && s[lo] == '-';
    !z && !neg
}

/// Whether `a[alo..ahi] < b[blo..bhi]` as numbers.
#[verifier::spinoff_prover]
pub fn real_less(a: &[char], alo: usize, ahi: usize, b: &[char], blo: usize, bhi: usize) -> (r: bool)
    requires
        alo <= ahi <= a@.len(),
        blo <= bhi <= b@.len(),
        ahi - alo <= 21,
        bhi - blo <= 21,
        number_syntax(unsigned_part(a@.subrange(alo as int, ahi as int))),
        number_syntax(unsigned_part(b@.subrange(blo as int, bhi as int))),
    ensures
        r == value_lt(
            real_value(a@.subrange(alo as int, ahi as int)),
            real_value(b@.subrange(blo as int, bhi as int)),
        ),
{
    let ghost ta = a@.subrange(alo as int, ahi as int);
    let ghost tb = b@.subrange(blo as int, bhi as int);
    let ghost ua = unsigned_part(ta);
    let ghost ub = unsigned_part(tb);
    let ca = scale_short(a, alo, ahi);
    let cb = scale_short(b, blo, bhi);
    let ghost va = real_value(ta);
    let ghost vb = real_value(tb);
    match (ca.span, cb.span) {
        (None, None) => {
            proof {
                lemma_value_lt_zero(va, vb);
            }
            false
        },
        (None, Some((fb, lb))) => {
            proof {
                let d = cb.digits@.subrange(fb as int, lb + 1);
                let tz = choose|tz: nat|
                    #![trigger pow10(tz)]
                    magnitude(ub) == digits_value(d) * pow10(tz) && cb.exp == scale(ub) + tz;
                lemma_positive_magnitude(d, tz);
                lemma_value_lt_zero(va, vb);
            }
            !cb.neg
        },
        (Some((fa, la)), None) => {
            proof {
                let d = ca.digits@.subrange(fa as int, la + 1);
                let tz = choose|tz: nat|
                    #![trigger pow10(tz)]
                    magnitude(ua) == digits_value(d) * pow10(tz) && ca.exp == scale(ua) + tz;
                lemma_positive_magnitude(d, tz);
                lemma_value_lt_zero(va, vb);
            }
            ca.neg
        },
        (Some((fa, la)), Some((fb, lb))) => {
            let ghost da = ca.digits@.subrange(fa as int, la + 1);
            let ghost db = cb.digits@.subrange(fb as int, lb + 1);
            let ghost tza = choose|tz: nat|
                #![trigger pow10(tz)]
                magnitude(ua) == digits_value(da) * pow10(tz) && ca.exp == scale(ua) + tz;
            let ghost tzb = choose|tz: nat|
                #![trigger pow10(tz)]
                magnitude(ub) == digits_value(db) * pow10(tz) && cb.exp == scale(ub) + tz;
            proof {
                lemma_positive_magnitude(da, tza);
                lemma_positive_magnitude(db, tzb);
            }
            if ca.neg != cb.neg {
                proof {
                    lemma_value_lt_signs(va, vb);
                }
                return ca.neg;
            }
            let na = ca.digits.len();
            let nb = cb.digits.len();
            assert(la < na && lb < nb);
            let c = compare_scaled(&ca.digits, fa, la + 1, ca.exp, &cb.digits, fb, lb + 1, cb.exp);
            proof {
                let xa = digits_value(da) as int;
                let xb = digits_value(db) as int;
                if ca.neg {
                    lemma_value_lt_neg((magnitude(ua) as int, scale(ua)), (magnitude(ub) as int, scale(ub)));
                    lemma_value_lt_shift_left(xb, tzb, scale(ub), (magnitude(ua) as int, scale(ua)));
                    lemma_value_lt_shift_right((xb, cb.exp as int), xa, tza, scale(ua));
                } else {
                    lemma_value_lt_shift_left(xa, tza, scale(ua), (magnitude(ub) as int, scale(ub)));
                    lemma_value_lt_shift_right((xa, ca.exp as int), xb, tzb, scale(ub));
                }
            }
            if ca.neg {
                c > 0
            } else {
                c < 0
            }
        },
    }
}

proof fn lemma_positive_magnitude(d: Seq<char>, tz: nat)
    requires
        normal(d),
    ensures
        digits_value(d) * pow10(tz) >= 1,
{
    lemma_digits_lower(d);
    lemma_pow10_positive(tz);
    lemma_pow10_positive((d.len() - 1) as nat);
    assert(digits_value(d) * pow10(tz) >= 1) by (nonlinear_arith)
        requires
            digits_value(d) >= pow10((d.len() - 1) as nat),
            pow10((d.len() - 1) as nat) >= 1,
            pow10(tz) >= 1,
    ;
}

} // verus!