//! Character level helpers with the exact meaning the standard library gives
//! them: Unicode whitespace trimming, ASCII case folding, integer parsing in
//! the grammar of `str::parse`, and decimal rendering of integers.

use vstd::prelude::*;

verus! {

broadcast use vstd::string::group_string_axioms;

/// The `White_Space` property that `char::is_whitespace` tests.
pub open spec fn is_ws(c: char) -> bool {
    let u = c as u32;
    ||| 9 <= u <= 13
    ||| u == 32
    ||| u == 0x85
    ||| u == 0xA0
    ||| u == 0x1680
    ||| 0x2000 <= u <= 0x200A
    ||| u == 0x2028
    ||| u == 0x2029
    ||| u == 0x202F
    ||| u == 0x205F
    ||| u == 0x3000
}

pub fn char_is_ws(c: char) -> (b: bool)
    ensures
        b == is_ws(c),
{
    let u = c as u32;
    (9 <= u && u <= 13) || u == 32 || u == 0x85 || u == 0xA0 || u == 0x1680 || (0x2000 <= u && u
        <= 0x200A) || u == 0x2028 || u == 0x2029 || u == 0x202F || u == 0x205F || u == 0x3000
}

/// `s` without its leading whitespace.
pub open spec fn trim_start(s: Seq<char>) -> Seq<char>
    decreases s.len(),
{
    if s.len() > 0 && is_ws(s[0]) {
        trim_start(s.drop_first())
    } else {
        s
    }
}

/// `s` without its trailing whitespace.
pub open spec fn trim_end(s: Seq<char>) -> Seq<char>
    decreases s.len(),
{
    if s.len() > 0 && is_ws(s.last()) {
        trim_end(s.drop_last())
    } else {
        s
    }
}

/// `str::trim`: both ends.
pub open spec fn trim(s: Seq<char>) -> Seq<char> {
    trim_end(trim_start(s))
}

proof fn lemma_trim_start_step(s: Seq<char>, i: int)
    requires
        0 <= i < s.len(),
        is_ws(s[i]),
    ensures
        trim_start(s.subrange(i, s.len() as int)) == trim_start(s.subrange(i + 1, s.len() as int)),
{
    assert(s.subrange(i, s.len() as int).drop_first() =~= s.subrange(i + 1, s.len() as int));
}

proof fn lemma_trim_end_step(s: Seq<char>, j: int)
    requires
        0 < j <= s.len(),
        is_ws(s[j - 1]),
    ensures
        trim_end(s.subrange(0, j)) == trim_end(s.subrange(0, j - 1)),
{
    assert(s.subrange(0, j).drop_last() =~= s.subrange(0, j - 1));
}

/// Where the text of `s[lo..hi]` starts once its leading whitespace is
/// dropped.
pub fn trim_start_at(s: &[char], lo: usize, hi: usize) -> (a: usize)
    requires
        lo <= hi <= s@.len(),
    ensures
        lo <= a <= hi,
        s@.subrange(a as int, hi as int) == trim_start(s@.subrange(lo as int, hi as int)),
{
    let mut a = lo;
    while a < hi && char_is_ws(s[a])
        invariant
            lo <= a <= hi <= s@.len(),
            trim_start(s@.subrange(lo as int, hi as int)) == trim_start(
                s@.subrange(a as int, hi as int),
            ),
        decreases hi - a,
    {
        proof {
            let t = s@.subrange(lo as int, hi as int);
            lemma_trim_start_step(t, (a - lo) as int);
            assert(t.subrange((a - lo) as int, t.len() as int) =~= s@.subrange(a as int, hi as int));
            assert(t.subrange((a - lo + 1) as int, t.len() as int) =~= s@.subrange(
                a + 1,
                hi as int,
            ));
        }
        a = a + 1;
    }
    proof {
        let t = s@.subrange(a as int, hi as int);
        if t.len() > 0 {
            assert(t[0] == s@[a as int]);
        }
    }
    a
}

/// The bounds of the trimmed text of `s[lo..hi]`.
pub fn trim_bounds(s: &[char], lo: usize, hi: usize) -> (r: (usize, usize))
    requires
        lo <= hi <= s@.len(),
    ensures
        lo <= r.0 <= r.1 <= hi,
        s@.subrange(r.0 as int, r.1 as int) == trim(s@.subrange(lo as int, hi as int)),
        s@.subrange(r.0 as int, hi as int) == trim_start(s@.subrange(lo as int, hi as int)),
{
    let mut a = lo;
    while a < hi && char_is_ws(s[a])
        invariant
            lo <= a <= hi <= s@.len(),
            trim_start(s@.subrange(lo as int, hi as int)) == trim_start(
                s@.subrange(a as int, hi as int),
            ),
        decreases hi - a,
    {
        proof {
            let t = s@.subrange(lo as int, hi as int);
            lemma_trim_start_step(t, (a - lo) as int);
            assert(t.subrange((a - lo) as int, t.len() as int) =~= s@.subrange(a as int, hi as int));
            assert(t.subrange((a - lo + 1) as int, t.len() as int) =~= s@.subrange(
                a + 1,
                hi as int,
            ));
        }
        a = a + 1;
    }
    proof {
        let t = s@.subrange(a as int, hi as int);
        if t.len() > 0 {
            assert(t[0] == s@[a as int]);
        }
    }
    let mut b = hi;
    while b > a && char_is_ws(s[b - 1])
        invariant
            lo <= a <= b <= hi <= s@.len(),
            trim_start(s@.subrange(lo as int, hi as int)) == s@.subrange(a as int, hi as int),
            trim_end(s@.subrange(a as int, hi as int)) == trim_end(s@.subrange(a as int, b as int)),
        decreases b - a,
    {
        proof {
            let t = s@.subrange(a as int, hi as int);
            lemma_trim_end_step(t, (b - a) as int);
            assert(t.subrange(0, (b - a) as int) =~= s@.subrange(a as int, b as int));
            assert(t.subrange(0, (b - a - 1) as int) =~= s@.subrange(a as int, b - 1));
        }
        b = b - 1;
    }
    proof {
        let t = s@.subrange(a as int, b as int);
        if t.len() > 0 {
            assert(t.last() == s@[b - 1]);
        }
    }
    (a, b)
}

/// The characters of `s`, in order.
pub fn chars_of(s: &str) -> (v: Vec<char>)
    ensures
        v@ == s@,
{
    let mut v: Vec<char> = Vec::new();
    let mut it = s.chars();
    proof {
        vstd::string::axiom_spec_iter(s);
    }
    loop
        invariant
            v@ + vstd::std_specs::iter::IteratorSpec::remaining(&it) == s@,
            vstd::std_specs::iter::IteratorSpec::obeys_prophetic_iter_laws(&it),
            vstd::std_specs::iter::IteratorSpec::decrease(&it) is Some,
        ensures
            v@ == s@,
        decreases vstd::std_specs::iter::IteratorSpec::decrease(&it)->0,
    {
        match it.next() {
            Some(c) => {
                v.push(c);
            },
            None => {
                assert(v@ =~= s@);
                break ;
            },
        }
    }
    v
}

/// `s` as a `String`.
///
/// Trusted: `String::from_iter` over the characters of a slice builds the
/// string holding exactly those characters, in order.
#[verifier::external_body]
pub(crate) fn string_of(chars: &[char]) -> (r: String)
    ensures
        r@ == chars@,
{
    String::from_iter(chars)
}

pub open spec fn is_digit(c: char) -> bool {
    '0' <= c <= '9'
}

pub open spec fn digit_value(c: char) -> nat {
    (c as u32 - '0' as u32) as nat
}

pub open spec fn digit_char(d: nat) -> char
    recommends
        d < 10,
{
    ((d + 48) as u32) as char
}

pub open spec fn all_digits(s: Seq<char>) -> bool {
    forall|i: int| 0 <= i < s.len() ==> is_digit(#[trigger] s[i])
}

/// The value of a string of decimal digits, most significant first.
pub open spec fn digits_value(s: Seq<char>) -> nat
    decreases s.len(),
{
    if s.len() == 0 {
        0
    } else {
        digits_value(s.drop_last()) * 10 + digit_value(s.last())
    }
}

/// The decimal spelling of `n` that `Display` writes: no sign, no leading
/// zero.
pub open spec fn nat_text(n: nat) -> Seq<char>
    decreases n,
{
    if n < 10 {
        seq![digit_char(n)]
    } else {
        nat_text(n / 10).push(digit_char(n % 10))
    }
}

/// The decimal spelling of `i` that `Display` writes.
pub open spec fn int_text(i: int) -> Seq<char> {
    if i < 0 {
        seq!['-'] + nat_text((-i) as nat)
    } else {
        nat_text(i as nat)
    }
}

/// Append the decimal spelling of `n` to `out`.
pub fn push_nat(out: &mut Vec<char>, n: u64)
    ensures
        final(out)@ == old(out)@ + nat_text(n as nat),
    decreases n,
{
    if n >= 10 {
        push_nat(out, n / 10);
    }
    let d = (n % 10) as u32;
    let c = char_of_digit(d);
    out.push(c);
    proof {
        if n >= 10 {
            assert(nat_text(n as nat) == nat_text((n / 10) as nat).push(digit_char((n % 10) as nat)));
        }
    }
}

fn char_of_digit(d: u32) -> (c: char)
    requires
        d < 10,
    ensures
        c == digit_char(d as nat),
{
    let c = match d {
        0 => '0',
        1 => '1',
        2 => '2',
        3 => '3',
        4 => '4',
        5 => '5',
        6 => '6',
        7 => '7',
        8 => '8',
        _ => '9',
    };
    c
}

/// Append the decimal spelling of `i` to `out`.
pub fn push_int(out: &mut Vec<char>, i: i64)
    ensures
        final(out)@ == old(out)@ + int_text(i as int),
{
    if i < 0 {
        out.push('-');
        let m: u64 = if i == i64::MIN {
            9223372036854775808u64
        } else {
            (-i) as u64
        };
        push_nat(out, m);
        assert(final(out)@ =~= old(out)@ + int_text(i as int));
    } else {
        push_nat(out, i as u64);
    }
}

/// Append the text `t` to `out`.
pub fn push_str(out: &mut Vec<char>, t: &str)
    ensures
        final(out)@ == old(out)@ + t@,
{
    let cs = chars_of(t);
    push_chars(out, &cs);
}

/// Append `t` to `out`.
pub fn push_chars(out: &mut Vec<char>, t: &[char])
    ensures
        final(out)@ == old(out)@ + t@,
{
    let ghost start = out@;
    let mut i: usize = 0;
    while i < t.len()
        invariant
            i <= t@.len(),
            out@ == start + t@.subrange(0, i as int),
        decreases t@.len() - i,
    {
        out.push(t[i]);
        i = i + 1;
        assert(out@ =~= start + t@.subrange(0, i as int));
    }
    assert(t@.subrange(0, t@.len() as int) =~= t@);
}

/// The value of a run of digits with an optional leading `+`: the grammar
/// `str::parse` accepts for an unsigned integer, before its range check.
pub open spec fn unsigned_value(s: Seq<char>) -> Option<nat> {
    let body = if s.len() > 0 && s[0] == '+' {
        s.drop_first()
    } else {
        s
    };
    if body.len() > 0 && all_digits(body) {
        Some(digits_value(body))
    } else {
        None
    }
}

/// The value of a run of digits with an optional leading `+` or `-`: the
/// grammar `str::parse` accepts for a signed integer, before its range check.
pub open spec fn signed_value(s: Seq<char>) -> Option<int> {
    if s.len() > 0 && s[0] == '-' {
        let body = s.drop_first();
        if body.len() > 0 && all_digits(body) {
            Some(-(digits_value(body) as int))
        } else {
            None
        }
    } else {
        match unsigned_value(s) {
            Some(v) => Some(v as int),
            None => None,
        }
    }
}

/// `s.parse::<usize>()`.
pub open spec fn parse_usize_spec(s: Seq<char>) -> Option<usize> {
    match unsigned_value(s) {
        Some(v) => if v <= usize::MAX {
            Some(v as usize)
        } else {
            None
        },
        None => None,
    }
}

/// `s.parse::<u64>()`.
pub open spec fn parse_u64_spec(s: Seq<char>) -> Option<u64> {
    match unsigned_value(s) {
        Some(v) => if v <= u64::MAX {
            Some(v as u64)
        } else {
            None
        },
        None => None,
    }
}

/// `s.parse::<u32>()`.
pub open spec fn parse_u32_spec(s: Seq<char>) -> Option<u32> {
    match unsigned_value(s) {
        Some(v) => if v <= u32::MAX {
            Some(v as u32)
        } else {
            None
        },
        None => None,
    }
}

/// `s.parse::<i64>()`.
pub open spec fn parse_i64_spec(s: Seq<char>) -> Option<i64> {
    match signed_value(s) {
        Some(v) => if i64::MIN <= v <= i64::MAX {
            Some(v as i64)
        } else {
            None
        },
        None => None,
    }
}

proof fn lemma_digits_value_push(s: Seq<char>, c: char)
    ensures
        digits_value(s.push(c)) == digits_value(s) * 10 + digit_value(c),
{
    assert(s.push(c).drop_last() =~= s);
}

/// The digits of `s[lo..hi]` as a number, or `None` when the run is empty,
/// holds a character that is not a digit, or exceeds `u64::MAX`.
fn digits_u64(s: &[char], lo: usize, hi: usize) -> (r: Option<u64>)
    requires
        lo <= hi <= s@.len(),
    ensures
        ({
            let t = s@.subrange(lo as int, hi as int);
            match r {
                Some(v) => t.len() > 0 && all_digits(t) && v as nat == digits_value(t),
                None => !(t.len() > 0 && all_digits(t) && digits_value(t) <= u64::MAX),
            }
        }),
{
    if lo == hi {
        return None;
    }
    let mut acc: u64 = 0;
    let mut i = lo;
    while i < hi
        invariant
            lo <= i <= hi <= s@.len(),
            all_digits(s@.subrange(lo as int, i as int)),
            acc as nat == digits_value(s@.subrange(lo as int, i as int)),
        decreases hi - i,
    {
        let c = s[i];
        proof {
            assert(s@.subrange(lo as int, i + 1) =~= s@.subrange(lo as int, i as int).push(c));
            lemma_digits_value_push(s@.subrange(lo as int, i as int), c);
        }
        if !('0' <= c && c <= '9') {
            proof {
                let t = s@.subrange(lo as int, hi as int);
                assert(t[i - lo] == c);
            }
            return None;
        }
        let d = (c as u32 - '0' as u32) as u64;
        if acc > (u64::MAX - d) / 10 {
            proof {
                if all_digits(s@.subrange(lo as int, hi as int)) {
                    lemma_rest_digits_grow(s@.subrange(lo as int, hi as int), (i + 1 - lo) as int);
                }
                assert(s@.subrange(lo as int, hi as int).subrange(0, (i + 1 - lo) as int)
                    =~= s@.subrange(lo as int, i + 1));
            }
            return None;
        }
        acc = acc * 10 + d;
        i = i + 1;
    }
    assert(s@.subrange(lo as int, hi as int) =~= s@.subrange(lo as int, i as int));
    Some(acc)
}

/// A longer run of digits is worth at least as much as its prefix.
proof fn lemma_rest_digits_grow(t: Seq<char>, k: int)
    requires
        0 <= k <= t.len(),
        all_digits(t),
    ensures
        digits_value(t) >= digits_value(t.subrange(0, k)),
    decreases t.len() - k,
{
    if k < t.len() {
        lemma_rest_digits_grow(t, k + 1);
        let p = t.subrange(0, k + 1);
        assert(p.drop_last() =~= t.subrange(0, k));
        assert(digits_value(p) == digits_value(t.subrange(0, k)) * 10 + digit_value(p.last()));
    } else {
        assert(t.subrange(0, k) =~= t);
    }
}

/// `s[lo..hi].parse::<u64>()`.
pub fn parse_u64(s: &[char], lo: usize, hi: usize) -> (r: Option<u64>)
    requires
        lo <= hi <= s@.len(),
    ensures
        r == parse_u64_spec(s@.subrange(lo as int, hi as int)),
{
    let ghost t = s@.subrange(lo as int, hi as int);
    if lo < hi && s[lo] == '+' {
        proof {
            assert(t.drop_first() =~= s@.subrange(lo + 1, hi as int));
        }
        digits_u64(s, lo + 1, hi)
    } else {
        digits_u64(s, lo, hi)
    }
}

/// `s[lo..hi].parse::<usize>()`.
pub fn parse_usize(s: &[char], lo: usize, hi: usize) -> (r: Option<usize>)
    requires
        lo <= hi <= s@.len(),
    ensures
        r == parse_usize_spec(s@.subrange(lo as int, hi as int)),
{
    match parse_u64(s, lo, hi) {
        Some(v) => if v <= usize::MAX as u64 {
            Some(v as usize)
        } else {
            None
        },
        None => {
            proof {
                let t = s@.subrange(lo as int, hi as int);
                if let Some(v) = unsigned_value(t) {
                    assert(v > u64::MAX);
                }
            }
            None
        },
    }
}

/// `s[lo..hi].parse::<u32>()`.
pub fn parse_u32(s: &[char], lo: usize, hi: usize) -> (r: Option<u32>)
    requires
        lo <= hi <= s@.len(),
    ensures
        r == parse_u32_spec(s@.subrange(lo as int, hi as int)),
{
    match parse_u64(s, lo, hi) {
        Some(v) => if v <= u32::MAX as u64 {
            Some(v as u32)
        } else {
            None
        },
        None => None,
    }
}

/// `s[lo..hi].parse::<i64>()`.
pub fn parse_i64(s: &[char], lo: usize, hi: usize) -> (r: Option<i64>)
    requires
        lo <= hi <= s@.len(),
    ensures
        r == parse_i64_spec(s@.subrange(lo as int, hi as int)),
{
    let ghost t = s@.subrange(lo as int, hi as int);
    if lo < hi && s[lo] == '-' {
        proof {
            assert(t.drop_first() =~= s@.subrange(lo + 1, hi as int));
        }
        match digits_u64(s, lo + 1, hi) {
            Some(m) => if m <= 9223372036854775808u64 {
                if m == 9223372036854775808u64 {
                    Some(i64::MIN)
                } else {
                    Some(-(m as i64))
                }
            } else {
                None
            },
            None => None,
        }
    } else {
        match parse_u64(s, lo, hi) {
            Some(v) => if v <= i64::MAX as u64 {
                Some(v as i64)
            } else {
                None
            },
            None => None,
        }
    }
}

/// The offset of the first `\n` in `s`, or its length when there is none.
pub open spec fn first_nl(s: Seq<char>) -> nat
    decreases s.len(),
{
    if s.len() == 0 {
        0
    } else if s[0] == '\n' {
        0
    } else {
        1 + first_nl(s.drop_first())
    }
}

/// `str::split('\n')`: the pieces between newlines, the last one after the
/// final newline included even when empty.
pub open spec fn split_lines(s: Seq<char>) -> Seq<Seq<char>>
    decreases s.len(),
{
    let i = first_nl(s);
    if i < s.len() {
        seq![s.take(i as int)] + split_lines(s.skip(i as int + 1))
    } else {
        seq![s]
    }
}

pub proof fn lemma_first_nl_bound(s: Seq<char>)
    ensures
        first_nl(s) <= s.len(),
        first_nl(s) < s.len() ==> s[first_nl(s) as int] == '\n',
        forall|k: int| 0 <= k < first_nl(s) ==> s[k] != '\n',
    decreases s.len(),
{
    if s.len() > 0 && s[0] != '\n' {
        lemma_first_nl_bound(s.drop_first());
        assert forall|k: int| 0 <= k < first_nl(s) implies s[k] != '\n' by {
            if k > 0 {
                assert(s[k] == s.drop_first()[k - 1]);
            }
        }
    }
}

proof fn lemma_first_nl_skip(s: Seq<char>, j: int)
    requires
        0 <= j <= s.len(),
        forall|k: int| 0 <= k < j ==> s[k] != '\n',
    ensures
        first_nl(s) == j + first_nl(s.skip(j)),
    decreases j,
{
    if j > 0 {
        assert(s[0] != '\n');
        lemma_first_nl_skip(s.drop_first(), j - 1);
        assert(s.drop_first().skip(j - 1) =~= s.skip(j));
    } else {
        assert(s.skip(0) =~= s);
    }
}

/// The end of the line that starts at `p`: the offset of the next `\n`, or
/// the end of `s`.
pub fn line_end(s: &[char], p: usize) -> (e: usize)
    requires
        p <= s@.len(),
    ensures
        e == p + first_nl(s@.skip(p as int)),
        p <= e <= s@.len(),
        e < s@.len() ==> s@[e as int] == '\n',
        forall|k: int| p <= k < e ==> s@[k] != '\n',
{
    let mut e = p;
    while e < s.len() && s[e] != '\n'
        invariant
            p <= e <= s@.len(),
            forall|k: int| p <= k < e ==> s@[k] != '\n',
        decreases s@.len() - e,
    {
        e = e + 1;
    }
    proof {
        let t = s@.skip(p as int);
        lemma_first_nl_skip(t, (e - p) as int);
        assert(t.skip((e - p) as int) =~= s@.skip(e as int));
        if e < s@.len() {
            assert(s@.skip(e as int)[0] == '\n');
        }
    }
    e
}

/// One step of `split_lines`: a piece ending at a newline, then the rest.
pub proof fn lemma_split_lines_step(s: Seq<char>, p: int, e: int)
    requires
        0 <= p <= e < s.len(),
        e == p + first_nl(s.skip(p)),
    ensures
        split_lines(s.skip(p)) == seq![s.subrange(p, e)] + split_lines(s.skip(e + 1)),
{
    let t = s.skip(p);
    assert(t.take(e - p) =~= s.subrange(p, e));
    assert(t.skip(e - p + 1) =~= s.skip(e + 1));
}

/// The last step of `split_lines`: no newline is left.
pub proof fn lemma_split_lines_last(s: Seq<char>, p: int)
    requires
        0 <= p <= s.len(),
        s.len() == p + first_nl(s.skip(p)),
    ensures
        split_lines(s.skip(p)) == seq![s.subrange(p, s.len() as int)],
{
    assert(s.skip(p) =~= s.subrange(p, s.len() as int));
}

/// What `String::from_utf8_lossy` decodes `bytes` to.
pub uninterp spec fn lossy_utf8(bytes: Seq<u8>) -> Seq<char>;

/// `String::from_utf8_lossy(bytes)`.
///
/// Trusted: the decoded text is a function of the bytes alone, and a valid
/// UTF-8 buffer decodes to exactly its characters. How an invalid sequence is
/// replaced by U+FFFD is left unsaid.
#[verifier::external_body]
pub(crate) fn utf8_lossy(bytes: &[u8]) -> (r: String)
    ensures
        r@ == lossy_utf8(bytes@),
        vstd::utf8::valid_utf8(bytes@) ==> r@ == vstd::utf8::decode_utf8(bytes@),
{
    String::from_utf8_lossy(bytes).into_owned()
}

/// `std::str::from_utf8(bytes).ok()`.
///
/// Trusted: the bytes decode exactly when they are valid UTF-8, and then to
/// the characters they encode.
#[verifier::external_body]
pub(crate) fn utf8_strict(bytes: &[u8]) -> (r: Option<&str>)
    ensures
        r is Some <==> vstd::utf8::valid_utf8(bytes@),
        r matches Some(t) ==> t@ == vstd::utf8::decode_utf8(bytes@),
{
    std::str::from_utf8(bytes).ok()
}

/// Whether `s` begins with `prefix`.
pub open spec fn starts_with(s: Seq<char>, prefix: Seq<char>) -> bool {
    prefix.len() <= s.len() && s.take(prefix.len() as int) == prefix
}

/// `seq_join(items, sep)`: the items with `sep` between each pair, as
/// `[T]::join` writes them.
pub open spec fn join(items: Seq<Seq<char>>, sep: Seq<char>) -> Seq<char>
    decreases items.len(),
{
    if items.len() == 0 {
        Seq::empty()
    } else if items.len() == 1 {
        items[0]
    } else {
        join(items.drop_last(), sep) + sep + items.last()
    }
}

/// The views of a slice of strings.
pub open spec fn views(items: Seq<String>) -> Seq<Seq<char>> {
    items.map_values(|item: String| item@)
}

/// Whether `a` and `b` hold the same characters.
pub fn chars_eq(a: &[char], b: &[char]) -> (r: bool)
    ensures
        r == (a@ == b@),
{
    if a.len() != b.len() {
        return false;
    }
    let mut i: usize = 0;
    while i < a.len()
        invariant
            a@.len() == b@.len(),
            i <= a@.len(),
            forall|k: int| 0 <= k < i ==> a@[k] == b@[k],
        decreases a@.len() - i,
    {
        if a[i] != b[i] {
            return false;
        }
        i = i + 1;
    }
    assert(a@ =~= b@);
    true
}

/// Whether `a[lo..hi]` holds exactly the characters of `t`.
pub fn range_is(a: &[char], lo: usize, hi: usize, t: &str) -> (r: bool)
    requires
        lo <= hi <= a@.len(),
    ensures
        r == (a@.subrange(lo as int, hi as int) == t@),
{
    let tc = chars_of(t);
    if hi - lo != tc.len() {
        return false;
    }
    let mut i: usize = 0;
    while i < tc.len()
        invariant
            hi - lo == tc@.len(),
            tc@ == t@,
            lo <= hi <= a@.len(),
            i <= tc@.len(),
            forall|k: int| 0 <= k < i ==> a@[lo + k] == tc@[k],
        decreases tc@.len() - i,
    {
        if a[lo + i] != tc[i] {
            assert(a@.subrange(lo as int, hi as int)[i as int] != tc@[i as int]);
            return false;
        }
        i = i + 1;
    }
    assert(a@.subrange(lo as int, hi as int) =~= tc@);
    true
}

/// Whether `a[lo..hi]` begins with the characters of `t`.
pub fn range_starts_with(a: &[char], lo: usize, hi: usize, t: &str) -> (r: bool)
    requires
        lo <= hi <= a@.len(),
    ensures
        r == starts_with(a@.subrange(lo as int, hi as int), t@),
{
    let tc = chars_of(t);
    if hi - lo < tc.len() {
        return false;
    }
    let r = range_is(a, lo, lo + tc.len(), t);
    assert(a@.subrange(lo as int, hi as int).take(tc@.len() as int) =~= a@.subrange(
        lo as int,
        lo + tc@.len(),
    ));
    r
}

/// Whether `t` occurs in `s` (`str::contains` with a string pattern).
pub open spec fn has_infix(s: Seq<char>, t: Seq<char>) -> bool {
    exists|i: int| 0 <= i && i + t.len() <= s.len() && #[trigger] s.subrange(i, i + t.len()) == t
}

/// Whether `a[lo..hi]` contains the characters of `t`.
pub fn range_contains(a: &[char], lo: usize, hi: usize, t: &str) -> (r: bool)
    requires
        lo <= hi <= a@.len(),
    ensures
        r == has_infix(a@.subrange(lo as int, hi as int), t@),
{
    let ghost s = a@.subrange(lo as int, hi as int);
    let n = chars_of(t).len();
    if n > hi - lo {
        return false;
    }
    let m = hi - lo - n;
    let mut j: usize = 0;
    while j <= m
        invariant
            n == t@.len(),
            m == hi - lo - n,
            lo <= hi <= a@.len(),
            j <= m + 1,
            s == a@.subrange(lo as int, hi as int),
            forall|k: int| 0 <= k < j ==> #[trigger] s.subrange(k, k + n) != t@,
        decreases m + 1 - j,
    {
        let i = lo + j;
        assert(s.subrange(j as int, (j + n) as int) =~= a@.subrange(i as int, (i + n) as int));
        if range_is(a, i, i + n, t) {
            return true;
        }
        if j == m {
            return false;
        }
        j = j + 1;
    }
    false
}

/// `s` folded by `str::to_ascii_lowercase`.
pub open spec fn lower(s: Seq<char>) -> Seq<char> {
    s.map_values(|c: char| ascii_lower(c))
}

/// `c` folded by `char::to_ascii_lowercase`.
pub open spec fn ascii_lower(c: char) -> char {
    if 'A' <= c <= 'Z' {
        ((c as u32) + 32) as char
    } else {
        c
    }
}

/// `char::to_ascii_lowercase`.
pub fn to_ascii_lower(c: char) -> (r: char)
    ensures
        r == ascii_lower(c),
{
    if 'A' <= c && c <= 'Z' {
        ((c as u32) + 32) as u8 as char
    } else {
        c
    }
}

/// `a[lo..hi]` folded to ASCII lower case.
pub fn lower_range(a: &[char], lo: usize, hi: usize) -> (r: Vec<char>)
    requires
        lo <= hi <= a@.len(),
    ensures
        r@ == lower(a@.subrange(lo as int, hi as int)),
{
    let mut r: Vec<char> = Vec::new();
    let mut i = lo;
    while i < hi
        invariant
            lo <= i <= hi <= a@.len(),
            r@ == lower(a@.subrange(lo as int, i as int)),
        decreases hi - i,
    {
        r.push(to_ascii_lower(a[i]));
        i = i + 1;
        assert(r@ =~= lower(a@.subrange(lo as int, i as int)));
    }
    r
}

/// The offset of the first `c` in `s`, or its length when there is none.
pub open spec fn first_index_of(s: Seq<char>, c: char) -> nat
    decreases s.len(),
{
    if s.len() == 0 {
        0
    } else if s[0] == c {
        0
    } else {
        1 + first_index_of(s.drop_first(), c)
    }
}

/// `str::split(c)`: the pieces between separators, the last one included
/// even when empty.
pub open spec fn split_on(s: Seq<char>, c: char) -> Seq<Seq<char>>
    decreases s.len(),
{
    let i = first_index_of(s, c);
    if i < s.len() {
        seq![s.take(i as int)] + split_on(s.skip(i as int + 1), c)
    } else {
        seq![s]
    }
}

proof fn lemma_first_index_skip(s: Seq<char>, c: char, j: int)
    requires
        0 <= j <= s.len(),
        forall|k: int| 0 <= k < j ==> s[k] != c,
    ensures
        first_index_of(s, c) == j + first_index_of(s.skip(j), c),
    decreases j,
{
    if j > 0 {
        lemma_first_index_skip(s.drop_first(), c, j - 1);
        assert(s.drop_first().skip(j - 1) =~= s.skip(j));
    } else {
        assert(s.skip(0) =~= s);
    }
}

/// The offset of the first `c` in `s[lo..hi]`, or `hi`.
pub fn find_char(s: &[char], lo: usize, hi: usize, c: char) -> (e: usize)
    requires
        lo <= hi <= s@.len(),
    ensures
        lo <= e <= hi,
        e - lo == first_index_of(s@.subrange(lo as int, hi as int), c),
        e < hi ==> s@[e as int] == c,
{
    let mut e = lo;
    while e < hi && s[e] != c
        invariant
            lo <= e <= hi <= s@.len(),
            forall|k: int| lo <= k < e ==> s@[k] != c,
        decreases hi - e,
    {
        e = e + 1;
    }
    proof {
        let t = s@.subrange(lo as int, hi as int);
        lemma_first_index_skip(t, c, (e - lo) as int);
        assert(t.skip((e - lo) as int) =~= s@.subrange(e as int, hi as int));
        if e < hi {
            assert(s@.subrange(e as int, hi as int)[0] == s@[e as int]);
        }
    }
    e
}

/// One step of `split_on`.
pub proof fn lemma_split_on_step(s: Seq<char>, c: char, lo: int, e: int, hi: int)
    requires
        0 <= lo <= e < hi <= s.len(),
        e - lo == first_index_of(s.subrange(lo, hi), c),
    ensures
        split_on(s.subrange(lo, hi), c) == seq![s.subrange(lo, e)] + split_on(
            s.subrange(e + 1, hi),
            c,
        ),
{
    let t = s.subrange(lo, hi);
    assert(t.take(e - lo) =~= s.subrange(lo, e));
    assert(t.skip(e - lo + 1) =~= s.subrange(e + 1, hi));
}

/// The last step of `split_on`.
pub proof fn lemma_split_on_last(s: Seq<char>, c: char, lo: int, hi: int)
    requires
        0 <= lo <= hi <= s.len(),
        hi - lo == first_index_of(s.subrange(lo, hi), c),
    ensures
        split_on(s.subrange(lo, hi), c) == seq![s.subrange(lo, hi)],
{
}

/// `n` written with at least `width` digits, zeros in front (`{n:0width$}`).
pub open spec fn zero_padded(n: nat, width: nat) -> Seq<char> {
    let t = nat_text(n);
    if t.len() < width {
        Seq::new((width - t.len()) as nat, |i: int| '0') + t
    } else {
        t
    }
}

proof fn lemma_nat_text_len(n: nat)
    ensures
        nat_text(n).len() >= 1,
    decreases n,
{
    if n >= 10 {
        lemma_nat_text_len(n / 10);
    }
}

/// Append `n` with at least `width` digits.
pub fn push_padded(out: &mut Vec<char>, n: u64, width: usize)
    ensures
        final(out)@ == old(out)@ + zero_padded(n as nat, width as nat),
{
    let mut t: Vec<char> = Vec::new();
    push_nat(&mut t, n);
    assert(t@ =~= nat_text(n as nat));
    let mut k = t.len();
    while k < width
        invariant
            t@ == nat_text(n as nat),
            t@.len() <= k <= width || k == t@.len(),
            out@ == old(out)@ + Seq::new((k - t@.len()) as nat, |i: int| '0'),
        decreases width - k,
    {
        out.push('0');
        k = k + 1;
        assert(out@ =~= old(out)@ + Seq::new((k - t@.len()) as nat, |i: int| '0'));
    }
    push_chars(out, &t);
    proof {
        if t@.len() < width {
            assert(k == width);
        } else {
            assert(Seq::new((k - t@.len()) as nat, |i: int| '0') =~= Seq::<char>::empty());
            assert(out@ =~= old(out)@ + t@);
        }
    }
}

pub proof fn lemma_trim_len(s: Seq<char>)
    ensures
        trim(s).len() <= s.len(),
{
    lemma_trim_start_len(s);
    lemma_trim_end_len(trim_start(s));
}

proof fn lemma_trim_start_len(s: Seq<char>)
    ensures
        trim_start(s).len() <= s.len(),
    decreases s.len(),
{
    if s.len() > 0 && is_ws(s[0]) {
        lemma_trim_start_len(s.drop_first());
    }
}

proof fn lemma_trim_end_len(s: Seq<char>)
    ensures
        trim_end(s).len() <= s.len(),
    decreases s.len(),
{
    if s.len() > 0 && is_ws(s.last()) {
        lemma_trim_end_len(s.drop_last());
    }
}

/// Decoding UTF-8 gives at most one character per byte.
pub proof fn lemma_decode_len(b: Seq<u8>)
    requires
        vstd::utf8::valid_utf8(b),
    ensures
        vstd::utf8::decode_utf8(b).len() <= b.len(),
    decreases b.len(),
{
    if b.len() > 0 {
        let k = vstd::utf8::length_of_first_scalar(b);
        assert(1 <= k <= b.len());
        let rest = vstd::utf8::pop_first_scalar(b);
        assert(rest.len() == b.len() - k);
        lemma_decode_len(rest);
    }
}


/// Whether `a` sorts before `b`, character by character from position `p`:
/// the order of `str`, whose UTF-8 bytes compare as their code points do.
pub open spec fn lt_from(a: Seq<char>, b: Seq<char>, p: int) -> bool
    decreases a.len() - p,
{
    if p < 0 || p >= a.len() {
        0 <= p < b.len()
    } else if p >= b.len() {
        false
    } else if a[p] != b[p] {
        (a[p] as int) < (b[p] as int)
    } else {
        lt_from(a, b, p + 1)
    }
}

/// Whether `a` sorts before `b`.
pub open spec fn chars_lt(a: Seq<char>, b: Seq<char>) -> bool {
    lt_from(a, b, 0)
}

pub proof fn lemma_lt_irreflexive(a: Seq<char>, p: int)
    requires
        0 <= p,
    ensures
        !lt_from(a, a, p),
    decreases a.len() - p,
{
    if p < a.len() {
        lemma_lt_irreflexive(a, p + 1);
    }
}

pub proof fn lemma_lt_transitive(a: Seq<char>, b: Seq<char>, c: Seq<char>, p: int)
    requires
        0 <= p,
        lt_from(a, b, p),
        lt_from(b, c, p),
    ensures
        lt_from(a, c, p),
    decreases a.len() - p,
{
    if p < a.len() && p < b.len() && p < c.len() && a[p] == b[p] && b[p] == c[p] {
        lemma_lt_transitive(a, b, c, p + 1);
    }
}

pub proof fn lemma_lt_total(a: Seq<char>, b: Seq<char>, p: int)
    requires
        0 <= p <= a.len(),
        p <= b.len(),
        a.subrange(p, a.len() as int) != b.subrange(p, b.len() as int),
    ensures
        lt_from(a, b, p) || lt_from(b, a, p),
    decreases a.len() - p,
{
    if p == a.len() && p == b.len() {
        assert(a.subrange(p, a.len() as int) =~= b.subrange(p, b.len() as int));
    } else if p < a.len() && p < b.len() && a[p] == b[p] {
        if a.subrange(p + 1, a.len() as int) == b.subrange(p + 1, b.len() as int) {
            assert(a.subrange(p, a.len() as int) =~= seq![a[p]] + a.subrange(p + 1, a.len() as int));
            assert(b.subrange(p, b.len() as int) =~= seq![b[p]] + b.subrange(p + 1, b.len() as int));
        }
        lemma_lt_total(a, b, p + 1);
    } else if p < a.len() && p < b.len() {
        assert((a[p] as int) != (b[p] as int));
    }
}

/// Whether `a` sorts before `b`.
pub fn chars_less(a: &[char], b: &[char]) -> (r: bool)
    ensures
        r == chars_lt(a@, b@),
{
    let mut i: usize = 0;
    while i < a.len() && i < b.len() && a[i] == b[i]
        invariant
            i <= a@.len(),
            i <= b@.len(),
            chars_lt(a@, b@) == lt_from(a@, b@, i as int),
        decreases a@.len() - i,
    {
        i = i + 1;
    }
    if i == a.len() {
        i < b.len()
    } else if i == b.len() {
        false
    } else {
        a[i] < b[i]
    }
}
/// Names in strictly increasing order.
pub open spec fn sorted_names(s: Seq<Seq<char>>) -> bool {
    forall|i: int, j: int| 0 <= i < j < s.len() ==> chars_lt(#[trigger] s[i], #[trigger] s[j])
}

pub proof fn lemma_sorted_distinct(s: Seq<Seq<char>>, i: int, j: int)
    requires
        sorted_names(s),
        0 <= i < s.len(),
        0 <= j < s.len(),
        i != j,
    ensures
        s[i] != s[j],
{
    lemma_lt_irreflexive(s[i], 0);
}

pub proof fn lemma_insert_sorted(s: Seq<Seq<char>>, i: int, c: Seq<char>)
    requires
        sorted_names(s),
        0 <= i <= s.len(),
        forall|t: int| 0 <= t < i ==> chars_lt(#[trigger] s[t], c),
        i < s.len() ==> chars_lt(c, s[i]),
    ensures
        sorted_names(s.insert(i, c)),
        forall|t: int| 0 <= t < s.len() ==> #[trigger] s[t] != c,
{
    let n = s.insert(i, c);
    assert forall|a: int, b: int| 0 <= a < b < n.len() implies chars_lt(#[trigger] n[a], #[trigger] n[b]) by {
        if b < i {
        } else if b == i {
        } else if a < i {
            assert(n[b] == s[b - 1]);
        } else if a == i {
            if b - 1 > i {
                lemma_lt_transitive(c, s[i], s[b - 1], 0);
            }
        } else {
            assert(n[a] == s[a - 1] && n[b] == s[b - 1]);
        }
    }
    assert forall|t: int| 0 <= t < s.len() implies #[trigger] s[t] != c by {
        lemma_lt_irreflexive(c, 0);
        if t > i {
            lemma_lt_transitive(c, s[i], s[t], 0);
        }
    }
}


/// Insert `s` into the strictly increasing `v`, unless it is there already:
/// an ordered set of strings.
pub fn insert_sorted(v: &mut Vec<String>, s: String)
    requires
        sorted_names(views(old(v)@)),
    ensures
        sorted_names(views(final(v)@)),
        forall|x: Seq<char>| #[trigger] views(final(v)@).contains(x) <==> views(old(v)@).contains(x) || x == s@,
{
    let ghost vs = views(v@);
    let c = chars_of(s.as_str());
    let mut i: usize = 0;
    let mut go = true;
    while go && i < v.len()
        invariant
            i <= v@.len(),
            vs == views(v@),
            c@ == s@,
            forall|t: int| 0 <= t < i ==> chars_lt(#[trigger] vs[t], s@),
            !go ==> i < v@.len() && !chars_lt(vs[i as int], s@),
        decreases v@.len() - i + (if go { 1int } else { 0int }),
    {
        let e = chars_of(v[i].as_str());
        assert(vs[i as int] == v@[i as int]@);
        if chars_less(&e, &c) {
            i = i + 1;
        } else {
            go = false;
        }
    }
    if i < v.len() {
        let e = chars_of(v[i].as_str());
        assert(vs[i as int] == v@[i as int]@);
        if chars_eq(&e, &c) {
            return;
        }
        proof {
            assert(vs[i as int].subrange(0, vs[i as int].len() as int) =~= vs[i as int]);
            assert(s@.subrange(0, s@.len() as int) =~= s@);
            lemma_lt_total(vs[i as int], s@, 0);
        }
    }
    proof {
        lemma_insert_sorted(vs, i as int, s@);
    }
    let ghost sv = s@;
    v.insert(i, s);
    proof {
        assert(views(v@) =~= vs.insert(i as int, sv));
        assert forall|x: Seq<char>| #[trigger] views(v@).contains(x) <==> vs.contains(x) || x == sv by {
            if vs.contains(x) {
                let t = choose|t: int| 0 <= t < vs.len() && vs[t] == x;
                if t < i {
                    assert(views(v@)[t] == x);
                } else {
                    assert(views(v@)[t + 1] == x);
                }
            }
            if x == sv {
                assert(views(v@)[i as int] == x);
            }
            if views(v@).contains(x) {
                let t = choose|t: int| 0 <= t < views(v@).len() && views(v@)[t] == x;
                if t < i {
                    assert(vs[t] == x);
                } else if t > i {
                    assert(vs[t - 1] == x);
                }
            }
        }
    }
}
} // verus!
