//! Recognising number literals the way `f64`'s `FromStr` reads them.
use vstd::prelude::*;
use crate::text::{contains, find, find_in, push_range, replace, replace_all, trim, trim_at};

verus! {

pub open spec fn is_digit(c: char) -> bool {
    '0' <= c && c <= '9'
}

pub open spec fn all_digits(s: Seq<char>) -> bool {
    forall|i: int| 0 <= i < s.len() ==> is_digit(#[trigger] s[i])
}

/// `c` is the lower-case letter `l`, or its upper-case form.
pub open spec fn same_letter(c: char, l: char) -> bool {
    c == l || (c as u32) + 32 == (l as u32)
}

/// `s` spells the lower-case word `w`, ignoring case.
pub open spec fn eq_ignore_case(s: Seq<char>, w: Seq<char>) -> bool {
    s.len() == w.len() && forall|i: int| 0 <= i < s.len() ==> same_letter(#[trigger] s[i], w[i])
}

pub open spec fn is_sign(c: char) -> bool {
    c == '+' || c == '-'
}

/// `s` without a leading sign.
pub open spec fn unsigned_part(s: Seq<char>) -> Seq<char> {
    if s.len() > 0 && is_sign(s[0]) {
        s.drop_first()
    } else {
        s
    }
}

/// `Digit+ | Digit+ '.' Digit* | Digit* '.' Digit+`
pub open spec fn is_mantissa(s: Seq<char>) -> bool {
    match find(s, seq!['.']) {
        Some(k) => s.len() >= 2 && all_digits(s.take(k)) && all_digits(s.skip(k + 1)),
        None => s.len() >= 1 && all_digits(s),
    }
}

/// `'e' Sign? Digit+`, the `e` in either case.
pub open spec fn is_exponent(s: Seq<char>) -> bool {
    s.len() >= 2 && same_letter(s[0], 'e') && unsigned_part(s.drop_first()).len() >= 1
        && all_digits(unsigned_part(s.drop_first()))
}

/// The number of leading characters of `s` that are digits or dots.
pub open spec fn mantissa_len(s: Seq<char>) -> nat
    decreases s.len(),
{
    if s.len() > 0 && (is_digit(s[0]) || s[0] == '.') {
        1 + mantissa_len(s.drop_first())
    } else {
        0
    }
}

/// `Number ::= Mantissa Exponent?`
pub open spec fn is_number(s: Seq<char>) -> bool {
    let m = mantissa_len(s) as int;
    is_mantissa(s.take(m)) && (m == s.len() || is_exponent(s.skip(m)))
}

/// `Sign? ('inf' | 'infinity' | 'nan' | Number)`, letters in either case: the strings
/// that `f64`'s `FromStr` accepts (its documentation gives this grammar).
pub open spec fn is_float_literal(s: Seq<char>) -> bool {
    let u = unsigned_part(s);
    eq_ignore_case(u, seq!['i', 'n', 'f']) || eq_ignore_case(
        u,
        seq!['i', 'n', 'f', 'i', 'n', 'i', 't', 'y'],
    ) || eq_ignore_case(u, seq!['n', 'a', 'n']) || is_number(u)
}

/// The text that is read as a number: an `e` without a dot becomes `.0e`, so `1e5` is
/// read as `1.0e5`.
pub open spec fn normalize(t: Seq<char>) -> Seq<char> {
    if contains(t, seq!['e']) && !contains(t, seq!['.']) {
        replace(t, seq!['e'], seq!['.', '0', 'e'])
    } else {
        t
    }
}

/// The literal that `input` holds as a number, if it holds one: `input` trimmed and
/// normalized, where `f64`'s `FromStr` accepts that.
pub open spec fn number_text(input: Seq<char>) -> Option<Seq<char>> {
    let n = trim(normalize(trim(input)));
    if is_float_literal(n) {
        Some(n)
    } else {
        None
    }
}

fn is_digit_char(c: char) -> (r: bool)
    ensures
        r == is_digit(c),
{
    '0' <= c && c <= '9'
}

fn all_digits_at(v: &[char], lo: usize, hi: usize) -> (r: bool)
    requires
        lo <= hi <= v@.len(),
    ensures
        r == all_digits(v@.subrange(lo as int, hi as int)),
{
    let mut i = lo;
    while i < hi
        invariant
            lo <= i <= hi <= v@.len(),
            forall|t: int| lo <= t < i ==> is_digit(v@[t]),
        decreases hi - i,
    {
        if !is_digit_char(v[i]) {
            assert(!is_digit(v@.subrange(lo as int, hi as int)[i - lo]));
            return false;
        }
        i = i + 1;
    }
    assert forall|t: int| 0 <= t < hi - lo implies is_digit(
        #[trigger] v@.subrange(lo as int, hi as int)[t],
    ) by {
        assert(v@.subrange(lo as int, hi as int)[t] == v@[lo + t]);
    }
    true
}

fn same_letter_char(c: char, l: char) -> (r: bool)
    requires
        'a' <= l <= 'z',
    ensures
        r == same_letter(c, l),
{
    c == l || (c as u32) + 32 == (l as u32)
}

fn eq_ignore_case_at(v: &[char], lo: usize, hi: usize, w: &[char]) -> (r: bool)
    requires
        lo <= hi <= v@.len(),
        forall|i: int| 0 <= i < w@.len() ==> 'a' <= #[trigger] w@[i] <= 'z',
    ensures
        r == eq_ignore_case(v@.subrange(lo as int, hi as int), w@),
{
    if hi - lo != w.len() {
        return false;
    }
    let mut i: usize = 0;
    while i < w.len()
        invariant
            hi - lo == w@.len(),
            lo <= hi <= v@.len(),
            i <= w@.len(),
            forall|j: int| 0 <= j < w@.len() ==> 'a' <= #[trigger] w@[j] <= 'z',
            forall|t: int| 0 <= t < i ==> same_letter(v@[lo + t], w@[t]),
        decreases w.len() - i,
    {
        if !same_letter_char(v[lo + i], w[i]) {
            assert(!same_letter(v@.subrange(lo as int, hi as int)[i as int], w@[i as int]));
            return false;
        }
        i = i + 1;
    }
    assert forall|t: int| 0 <= t < hi - lo implies same_letter(
        #[trigger] v@.subrange(lo as int, hi as int)[t],
        w@[t],
    ) by {
        assert(v@.subrange(lo as int, hi as int)[t] == v@[lo + t]);
    }
    true
}

/// Start of the unsigned part of `v[lo..hi]`.
fn unsigned_start(v: &[char], lo: usize, hi: usize) -> (a: usize)
    requires
        lo <= hi <= v@.len(),
    ensures
        lo <= a <= hi,
        v@.subrange(a as int, hi as int) == unsigned_part(v@.subrange(lo as int, hi as int)),
{
    if lo < hi && (v[lo] == '+' || v[lo] == '-') {
        assert(v@.subrange(lo as int, hi as int).drop_first() =~= v@.subrange(lo + 1, hi as int));
        lo + 1
    } else {
        lo
    }
}

fn is_mantissa_at(v: &[char], lo: usize, hi: usize) -> (r: bool)
    requires
        lo <= hi <= v@.len(),
    ensures
        r == is_mantissa(v@.subrange(lo as int, hi as int)),
{
    let ghost s = v@.subrange(lo as int, hi as int);
    let dot = ['.'];
    assert(dot@ =~= seq!['.']);
    match find_in(v, lo, hi, &dot) {
        Some(k) => {
            assert(s.take(k - lo) =~= v@.subrange(lo as int, k as int));
            assert(s.skip(k - lo + 1) =~= v@.subrange(k + 1, hi as int));
            hi - lo >= 2 && all_digits_at(v, lo, k) && all_digits_at(v, k + 1, hi)
        },
        None => hi - lo >= 1 && all_digits_at(v, lo, hi),
    }
}

fn is_exponent_at(v: &[char], lo: usize, hi: usize) -> (r: bool)
    requires
        lo <= hi <= v@.len(),
    ensures
        r == is_exponent(v@.subrange(lo as int, hi as int)),
{
    let ghost s = v@.subrange(lo as int, hi as int);
    if hi - lo < 2 || !same_letter_char(v[lo], 'e') {
        return false;
    }
    assert(s.drop_first() =~= v@.subrange(lo + 1, hi as int));
    let a = unsigned_start(v, lo + 1, hi);
    hi - a >= 1 && all_digits_at(v, a, hi)
}

/// `mantissa_len` of `v[lo..hi]`, as a position in `v`.
fn mantissa_end(v: &[char], lo: usize, hi: usize) -> (m: usize)
    requires
        lo <= hi <= v@.len(),
    ensures
        lo <= m <= hi,
        m - lo == mantissa_len(v@.subrange(lo as int, hi as int)),
{
    let mut m = lo;
    while m < hi && (is_digit_char(v[m]) || v[m] == '.')
        invariant
            lo <= m <= hi <= v@.len(),
            mantissa_len(v@.subrange(lo as int, hi as int)) == (m - lo) + mantissa_len(
                v@.subrange(m as int, hi as int),
            ),
        decreases hi - m,
    {
        assert(v@.subrange(m as int, hi as int).drop_first() =~= v@.subrange(m + 1, hi as int));
        m = m + 1;
    }
    m
}

fn is_number_at(v: &[char], lo: usize, hi: usize) -> (r: bool)
    requires
        lo <= hi <= v@.len(),
    ensures
        r == is_number(v@.subrange(lo as int, hi as int)),
{
    let ghost s = v@.subrange(lo as int, hi as int);
    let m = mantissa_end(v, lo, hi);
    assert(s.take(m - lo) =~= v@.subrange(lo as int, m as int));
    assert(s.skip(m - lo) =~= v@.subrange(m as int, hi as int));
    is_mantissa_at(v, lo, m) && (m == hi || is_exponent_at(v, m, hi))
}

/// Whether `f64`'s `FromStr` accepts `v[lo..hi]`.
pub fn is_float_literal_at(v: &[char], lo: usize, hi: usize) -> (r: bool)
    requires
        lo <= hi <= v@.len(),
    ensures
        r == is_float_literal(v@.subrange(lo as int, hi as int)),
{
    let a = unsigned_start(v, lo, hi);
    let inf = ['i', 'n', 'f'];
    let infinity = ['i', 'n', 'f', 'i', 'n', 'i', 't', 'y'];
    let nan = ['n', 'a', 'n'];
    assert(inf@ =~= seq!['i', 'n', 'f']);
    assert(infinity@ =~= seq!['i', 'n', 'f', 'i', 'n', 'i', 't', 'y']);
    assert(nan@ =~= seq!['n', 'a', 'n']);
    eq_ignore_case_at(v, a, hi, &inf) || eq_ignore_case_at(v, a, hi, &infinity)
        || eq_ignore_case_at(v, a, hi, &nan) || is_number_at(v, a, hi)
}

/// The literal that `v[lo..hi]` holds as a number, if it holds one.
///
/// Every string of digits with an optional sign is such a literal, so a value that reads as
/// an integer always reads as a float too.
pub fn parse_int_or_float(v: &[char], lo: usize, hi: usize) -> (r: Option<Vec<char>>)
    requires
        lo <= hi <= v@.len(),
    ensures
        match r {
            Some(n) => number_text(v@.subrange(lo as int, hi as int)) == Some(n@),
            None => number_text(v@.subrange(lo as int, hi as int)) is None,
        },
{
    let (a, b) = trim_at(v, lo, hi);
    let mut t: Vec<char> = Vec::new();
    push_range(&mut t, v, a, b);
    let e = ['e'];
    let dot = ['.'];
    let dot0e = ['.', '0', 'e'];
    assert(e@ =~= seq!['e']);
    assert(dot@ =~= seq!['.']);
    assert(dot0e@ =~= seq!['.', '0', 'e']);
    assert(t@ =~= t@.subrange(0, t@.len() as int));
    let has_e = find_in(t.as_slice(), 0, t.len(), &e).is_some();
    let has_dot = find_in(t.as_slice(), 0, t.len(), &dot).is_some();
    let n = if has_e && !has_dot {
        replace_all(t.as_slice(), &e, &dot0e)
    } else {
        t
    };
    let (c, d) = trim_at(n.as_slice(), 0, n.len());
    assert(n@ =~= n@.subrange(0, n@.len() as int));
    if is_float_literal_at(n.as_slice(), c, d) {
        let mut out: Vec<char> = Vec::new();
        push_range(&mut out, n.as_slice(), c, d);
        Some(out)
    } else {
        None
    }
}

} // verus!
