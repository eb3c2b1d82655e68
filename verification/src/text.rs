//! Text model: whitespace, trimming, searching, splitting and building strings.
use vstd::prelude::*;

verus! {

/// Unicode `White_Space` property (what `char::is_whitespace` tests).
pub open spec fn is_ws(c: char) -> bool {
    let u = c as u32;
    (0x9 <= u && u <= 0xd) || u == 0x20 || u == 0x85 || u == 0xa0 || u == 0x1680 || (0x2000 <= u
        && u <= 0x200a) || u == 0x2028 || u == 0x2029 || u == 0x202f || u == 0x205f || u == 0x3000
}

/// The text with its leading whitespace removed.
pub open spec fn trim_start(s: Seq<char>) -> Seq<char>
    decreases s.len(),
{
    if s.len() > 0 && is_ws(s[0]) {
        trim_start(s.drop_first())
    } else {
        s
    }
}

/// The text with its trailing whitespace removed.
pub open spec fn trim_end(s: Seq<char>) -> Seq<char>
    decreases s.len(),
{
    if s.len() > 0 && is_ws(s.last()) {
        trim_end(s.drop_last())
    } else {
        s
    }
}

/// The text with leading and trailing whitespace removed.
pub open spec fn trim(s: Seq<char>) -> Seq<char> {
    trim_end(trim_start(s))
}

/// What `trim_start` leaves does not start with whitespace.
pub proof fn lemma_trim_start_shape(s: Seq<char>)
    ensures
        trim_start(s).len() == 0 || !is_ws(trim_start(s)[0]),
    decreases s.len(),
{
    if s.len() > 0 && is_ws(s[0]) {
        lemma_trim_start_shape(s.drop_first());
    }
}

/// What `trim_end` leaves is a prefix that does not end with whitespace.
pub proof fn lemma_trim_end_shape(s: Seq<char>)
    ensures
        trim_end(s).len() <= s.len(),
        trim_end(s) == s.take(trim_end(s).len() as int),
        trim_end(s).len() == 0 || !is_ws(trim_end(s).last()),
    decreases s.len(),
{
    if s.len() > 0 && is_ws(s.last()) {
        lemma_trim_end_shape(s.drop_last());
        assert(s.drop_last().take(trim_end(s).len() as int) =~= s.take(trim_end(s).len() as int));
    } else {
        assert(s.take(s.len() as int) =~= s);
    }
}

/// Trimming twice trims no more than trimming once.
pub proof fn lemma_trim_idempotent(s: Seq<char>)
    ensures
        trim(trim(s)) == trim(s),
{
    let y = trim_start(s);
    let z = trim_end(y);
    lemma_trim_start_shape(s);
    lemma_trim_end_shape(y);
    if z.len() > 0 {
        assert(z[0] == y[0]);
    }
    assert(trim_start(z) == z);
}

pub fn is_whitespace(c: char) -> (r: bool)
    ensures
        r == is_ws(c),
{
    let u = c as u32;
    (0x9 <= u && u <= 0xd) || u == 0x20 || u == 0x85 || u == 0xa0 || u == 0x1680 || (0x2000 <= u
        && u <= 0x200a) || u == 0x2028 || u == 0x2029 || u == 0x202f || u == 0x205f || u == 0x3000
}

/// Start of the range that remains of `v[lo..hi]` once its leading whitespace is removed.
pub fn trim_start_at(v: &[char], lo: usize, hi: usize) -> (a: usize)
    requires
        lo <= hi <= v@.len(),
    ensures
        lo <= a <= hi,
        v@.subrange(a as int, hi as int) == trim_start(v@.subrange(lo as int, hi as int)),
{
    let mut a = lo;
    while a < hi && is_whitespace(v[a])
        invariant
            lo <= a <= hi <= v@.len(),
            trim_start(v@.subrange(a as int, hi as int)) == trim_start(
                v@.subrange(lo as int, hi as int),
            ),
        decreases hi - a,
    {
        assert(v@.subrange(a as int, hi as int).drop_first() =~= v@.subrange(a + 1, hi as int));
        a = a + 1;
    }
    a
}

/// End of the range that remains of `v[lo..hi]` once its trailing whitespace is removed.
pub fn trim_end_at(v: &[char], lo: usize, hi: usize) -> (b: usize)
    requires
        lo <= hi <= v@.len(),
    ensures
        lo <= b <= hi,
        v@.subrange(lo as int, b as int) == trim_end(v@.subrange(lo as int, hi as int)),
{
    let mut b = hi;
    while b > lo && is_whitespace(v[b - 1])
        invariant
            lo <= b <= hi <= v@.len(),
            trim_end(v@.subrange(lo as int, b as int)) == trim_end(
                v@.subrange(lo as int, hi as int),
            ),
        decreases b - lo,
    {
        assert(v@.subrange(lo as int, b as int).drop_last() =~= v@.subrange(lo as int, b - 1));
        b = b - 1;
    }
    b
}

/// `s` without its leading spaces and tabs.
pub open spec fn skip_blanks(s: Seq<char>) -> Seq<char>
    decreases s.len(),
{
    if s.len() > 0 && (s[0] == ' ' || s[0] == '\t') {
        skip_blanks(s.drop_first())
    } else {
        s
    }
}

/// Start of what remains of `v[lo..hi]` once its leading spaces and tabs are skipped.
pub fn skip_blanks_at(v: &[char], lo: usize, hi: usize) -> (a: usize)
    requires
        lo <= hi <= v@.len(),
    ensures
        lo <= a <= hi,
        v@.subrange(a as int, hi as int) == skip_blanks(v@.subrange(lo as int, hi as int)),
{
    let mut a = lo;
    while a < hi && (v[a] == ' ' || v[a] == '\t')
        invariant
            lo <= a <= hi <= v@.len(),
            skip_blanks(v@.subrange(a as int, hi as int)) == skip_blanks(
                v@.subrange(lo as int, hi as int),
            ),
        decreases hi - a,
    {
        assert(v@.subrange(a as int, hi as int).drop_first() =~= v@.subrange(a + 1, hi as int));
        a = a + 1;
    }
    a
}

/// The range that remains of `v[lo..hi]` once it is trimmed.
pub fn trim_at(v: &[char], lo: usize, hi: usize) -> (r: (usize, usize))
    requires
        lo <= hi <= v@.len(),
    ensures
        lo <= r.0 <= r.1 <= hi,
        v@.subrange(r.0 as int, r.1 as int) == trim(v@.subrange(lo as int, hi as int)),
{
    let a = trim_start_at(v, lo, hi);
    let b = trim_end_at(v, a, hi);
    (a, b)
}

/// Whether `p` occurs in `s` at position `i`.
pub open spec fn matches_at(s: Seq<char>, p: Seq<char>, i: int) -> bool {
    0 <= i && i + p.len() <= s.len() && s.subrange(i, i + p.len()) == p
}

/// The first position at or after `i` where `p` occurs in `s`.
pub open spec fn find_from(s: Seq<char>, p: Seq<char>, i: int) -> Option<int>
    decreases s.len() + 1 - i,
{
    if i < 0 || i + p.len() > s.len() {
        None
    } else if matches_at(s, p, i) {
        Some(i)
    } else {
        find_from(s, p, i + 1)
    }
}

/// The first position where `p` occurs in `s` (what `str::find` returns).
pub open spec fn find(s: Seq<char>, p: Seq<char>) -> Option<int> {
    find_from(s, p, 0)
}

/// Whether `p` occurs in `s` (what `str::contains` returns).
pub open spec fn contains(s: Seq<char>, p: Seq<char>) -> bool {
    find(s, p) is Some
}

/// `find_from` gives the first occurrence at or after `i`, and nothing before it.
pub proof fn lemma_find_from(s: Seq<char>, p: Seq<char>, i: int)
    requires
        0 <= i,
    ensures
        match find_from(s, p, i) {
            Some(k) => i <= k && k + p.len() <= s.len() && matches_at(s, p, k) && forall|j: int|
                i <= j < k ==> !matches_at(s, p, j),
            None => forall|j: int| i <= j ==> !matches_at(s, p, j),
        },
    decreases s.len() + 1 - i,
{
    if i + p.len() > s.len() {
    } else if matches_at(s, p, i) {
    } else {
        lemma_find_from(s, p, i + 1);
    }
}

/// Where no occurrence lies in `[i, k)` and one lies at `k`, `find_from` from `i` gives `k`.
pub proof fn lemma_find_from_at(s: Seq<char>, p: Seq<char>, i: int, k: int)
    requires
        0 <= i <= k,
        matches_at(s, p, k),
        forall|j: int| i <= j < k ==> !matches_at(s, p, j),
    ensures
        find_from(s, p, i) == Some(k),
    decreases k - i,
{
    if i < k {
        lemma_find_from_at(s, p, i + 1, k);
    }
}

/// Where no occurrence lies at or after `i`, `find_from` from `i` gives nothing.
pub proof fn lemma_find_from_none(s: Seq<char>, p: Seq<char>, i: int)
    requires
        0 <= i,
        forall|j: int| i <= j ==> !matches_at(s, p, j),
    ensures
        find_from(s, p, i) is None,
    decreases s.len() + 1 - i,
{
    if i + p.len() <= s.len() {
        lemma_find_from_none(s, p, i + 1);
    }
}

/// Where `c` stands at `k` and nowhere before, `find` gives `k`.
pub proof fn lemma_find_char(s: Seq<char>, c: char, k: int)
    requires
        0 <= k < s.len(),
        s[k] == c,
        forall|j: int| 0 <= j < k ==> s[j] != c,
    ensures
        find(s, seq![c]) == Some(k),
{
    assert(s.subrange(k, k + 1) =~= seq![c]);
    assert forall|j: int| 0 <= j < k implies !matches_at(s, seq![c], j) by {
        if matches_at(s, seq![c], j) {
            assert(s.subrange(j, j + 1)[0] == s[j]);
        }
    }
    lemma_find_from_at(s, seq![c], 0, k);
}

/// A space after text that is not all whitespace is trimmed away.
pub proof fn lemma_trim_trailing_space(u: Seq<char>)
    requires
        trim(u).len() > 0,
    ensures
        trim(u + seq![' ']) == trim(u),
{
    lemma_trim_start_append(u);
    let t = trim_start(u);
    assert(t.len() > 0);
    assert((t + seq![' ']).drop_last() =~= t);
}

proof fn lemma_trim_start_append(u: Seq<char>)
    requires
        trim_start(u).len() > 0,
    ensures
        trim_start(u + seq![' ']) == trim_start(u) + seq![' '],
    decreases u.len(),
{
    if u.len() > 0 && is_ws(u[0]) {
        assert((u + seq![' ']).drop_first() =~= u.drop_first() + seq![' ']);
        lemma_trim_start_append(u.drop_first());
    } else {
        assert(u.len() > 0);
        assert((u + seq![' '])[0] == u[0]);
    }
}

/// Whether `p` occurs in `v` at position `j`.
pub fn occurs_at(v: &[char], j: usize, hi: usize, p: &[char]) -> (r: bool)
    requires
        j <= hi <= v@.len(),
    ensures
        r == (j + p@.len() <= hi && v@.subrange(j as int, j + p@.len()) == p@),
{
    if p.len() > hi - j {
        return false;
    }
    let mut i: usize = 0;
    while i < p.len()
        invariant
            j + p@.len() <= hi <= v@.len(),
            i <= p@.len(),
            forall|t: int| 0 <= t < i ==> v@[j + t] == p@[t],
        decreases p.len() - i,
    {
        if v[j + i] != p[i] {
            assert(v@.subrange(j as int, j + p@.len())[i as int] != p@[i as int]);
            return false;
        }
        i = i + 1;
    }
    assert(v@.subrange(j as int, j + p@.len()) =~= p@);
    true
}

/// The first occurrence of `p` in `v[lo..hi]`, as a position in `v`.
pub fn find_in(v: &[char], lo: usize, hi: usize, p: &[char]) -> (r: Option<usize>)
    requires
        lo <= hi <= v@.len(),
    ensures
        match r {
            Some(k) => lo <= k && k + p@.len() <= hi && find(v@.subrange(lo as int, hi as int), p@)
                == Some(k - lo),
            None => find(v@.subrange(lo as int, hi as int), p@) is None,
        },
{
    let ghost s = v@.subrange(lo as int, hi as int);
    if p.len() > hi - lo {
        proof {
            lemma_find_from_none(s, p@, 0);
        }
        return None;
    }
    if p.len() == 0 {
        proof {
            assert(s.subrange(0, 0) =~= p@);
            assert(matches_at(s, p@, 0));
        }
        return Some(lo);
    }
    let last = hi - p.len();
    let mut j = lo;
    while j <= last
        invariant
            lo <= j <= last + 1,
            last + p@.len() == hi,
            p@.len() > 0,
            hi <= v@.len(),
            s == v@.subrange(lo as int, hi as int),
            forall|t: int| 0 <= t < j - lo ==> !matches_at(s, p@, t),
        decreases last + 1 - j,
    {
        let m = occurs_at(v, j, hi, p);
        assert(m == matches_at(s, p@, j - lo)) by {
            if j + p@.len() <= hi {
                assert(s.subrange(j - lo, j - lo + p@.len()) =~= v@.subrange(j as int, j + p@.len()));
            }
        }
        if m {
            proof {
                lemma_find_from_at(s, p@, 0, j - lo);
            }
            return Some(j);
        }
        j = j + 1;
    }
    proof {
        lemma_find_from_none(s, p@, 0);
    }
    None
}

/// `s` split at the first occurrence of `p` (what `str::split_once` returns).
pub open spec fn split_once(s: Seq<char>, p: Seq<char>) -> Option<(Seq<char>, Seq<char>)> {
    match find(s, p) {
        Some(k) => Some((s.take(k), s.skip(k + p.len()))),
        None => None,
    }
}

/// The pieces of `s` between the occurrences of a non-empty `p` (what `str::split` yields).
pub open spec fn split(s: Seq<char>, p: Seq<char>) -> Seq<Seq<char>>
    decreases s.len(),
{
    if p.len() == 0 {
        seq![s]
    } else {
        match find(s, p) {
            Some(k) => {
                proof {
                    lemma_find_from(s, p, 0);
                }
                seq![s.take(k)] + split(s.skip(k + p.len()), p)
            },
            None => seq![s],
        }
    }
}

/// Splitting yields at least one piece.
pub proof fn lemma_split_nonempty(s: Seq<char>, p: Seq<char>)
    ensures
        split(s, p).len() >= 1,
    decreases s.len(),
{
    if p.len() > 0 {
        match find(s, p) {
            Some(k) => {
                lemma_find_from(s, p, 0);
                lemma_split_nonempty(s.skip(k + p.len()), p);
            },
            None => {},
        }
    }
}

/// A line without the carriage return that ends it, if any.
pub open spec fn strip_cr(l: Seq<char>) -> Seq<char> {
    if l.len() > 0 && l.last() == '\r' {
        l.drop_last()
    } else {
        l
    }
}

/// The lines of `s` (what `str::lines` yields): split at `\n`, a `\r` before it dropped,
/// and no empty line after a final `\n`.
pub open spec fn lines(s: Seq<char>) -> Seq<Seq<char>>
    decreases s.len(),
{
    if s.len() == 0 {
        seq![]
    } else {
        match find(s, seq!['\n']) {
            Some(k) => {
                proof {
                    lemma_find_from(s, seq!['\n'], 0);
                }
                seq![strip_cr(s.take(k))] + lines(s.skip(k + 1))
            },
            None => seq![s],
        }
    }
}

/// `s` with every occurrence of a non-empty `f`, from the left and not overlapping, replaced
/// by `t` (what `str::replace` returns).
pub open spec fn replace(s: Seq<char>, f: Seq<char>, t: Seq<char>) -> Seq<char>
    decreases s.len(),
{
    if f.len() == 0 {
        s
    } else {
        match find(s, f) {
            Some(k) => {
                proof {
                    lemma_find_from(s, f, 0);
                }
                s.take(k) + t + replace(s.skip(k + f.len()), f, t)
            },
            None => s,
        }
    }
}

/// `s` without the prefix `p`, where it starts with `p` (what `str::strip_prefix` returns).
pub open spec fn strip_prefix(s: Seq<char>, p: Seq<char>) -> Option<Seq<char>> {
    if p.len() <= s.len() && s.take(p.len() as int) == p {
        Some(s.skip(p.len() as int))
    } else {
        None
    }
}

/// The texts that ranges of `v` hold.
pub open spec fn pieces(v: Seq<char>, r: Seq<(usize, usize)>) -> Seq<Seq<char>> {
    r.map_values(|x: (usize, usize)| v.subrange(x.0 as int, x.1 as int))
}

/// Every range lies within `v[lo..hi]`.
pub open spec fn ranges_within(r: Seq<(usize, usize)>, lo: int, hi: int) -> bool {
    forall|i: int| 0 <= i < r.len() ==> lo <= #[trigger] r[i].0 <= r[i].1 <= hi
}

/// The pieces of `v[lo..hi]` between the occurrences of `p`, as ranges of `v`.
pub fn split_at_pattern(v: &[char], lo: usize, hi: usize, p: &[char]) -> (r: Vec<(usize, usize)>)
    requires
        lo <= hi <= v@.len(),
        p@.len() > 0,
    ensures
        ranges_within(r@, lo as int, hi as int),
        pieces(v@, r@) == split(v@.subrange(lo as int, hi as int), p@),
{
    let mut r: Vec<(usize, usize)> = Vec::new();
    let mut start = lo;
    loop
        invariant
            lo <= start <= hi <= v@.len(),
            p@.len() > 0,
            ranges_within(r@, lo as int, hi as int),
            split(v@.subrange(lo as int, hi as int), p@) == pieces(v@, r@) + split(
                v@.subrange(start as int, hi as int),
                p@,
            ),
        decreases hi - start,
    {
        let ghost s = v@.subrange(start as int, hi as int);
        let ghost old_r = r@;
        match find_in(v, start, hi, p) {
            Some(k) => {
                proof {
                    assert(s.take(k - start) =~= v@.subrange(start as int, k as int));
                    assert(s.skip(k - start + p@.len()) =~= v@.subrange(k + p@.len(), hi as int));
                    assert(pieces(v@, r@.push((start, k))) =~= pieces(v@, r@).push(
                        v@.subrange(start as int, k as int),
                    ));
                }
                r.push((start, k));
                assert(ranges_within(r@, lo as int, hi as int)) by {
                    assert(forall|i: int| 0 <= i < r@.len() - 1 ==> r@[i] == old_r[i]);
                }
                start = k + p.len();
            },
            None => {
                proof {
                    assert(pieces(v@, r@.push((start, hi))) =~= pieces(v@, r@).push(s));
                }
                r.push((start, hi));
                return r;
            },
        }
    }
}

/// The lines of `v[lo..hi]`, as ranges of `v`.
pub fn line_ranges(v: &[char], lo: usize, hi: usize) -> (r: Vec<(usize, usize)>)
    requires
        lo <= hi <= v@.len(),
    ensures
        ranges_within(r@, lo as int, hi as int),
        pieces(v@, r@) == lines(v@.subrange(lo as int, hi as int)),
{
    let mut r: Vec<(usize, usize)> = Vec::new();
    let mut start = lo;
    let nl = ['\n'];
    assert(nl@ =~= seq!['\n']);
    while start < hi
        invariant
            lo <= start <= hi <= v@.len(),
            nl@ == seq!['\n'],
            ranges_within(r@, lo as int, hi as int),
            lines(v@.subrange(lo as int, hi as int)) == pieces(v@, r@) + lines(
                v@.subrange(start as int, hi as int),
            ),
        decreases hi - start,
    {
        let ghost s = v@.subrange(start as int, hi as int);
        let ghost old_r = r@;
        match find_in(v, start, hi, &nl) {
            Some(k) => {
                let e = if k > start && v[k - 1] == '\r' {
                    k - 1
                } else {
                    k
                };
                assert(start <= e <= k);
                proof {
                    let l = s.take(k - start);
                    assert(l =~= v@.subrange(start as int, k as int));
                    if k > start && v@[k - 1] == '\r' {
                        assert(l.drop_last() =~= v@.subrange(start as int, e as int));
                    }
                    assert(s.skip(k - start + 1) =~= v@.subrange(k + 1, hi as int));
                    assert(pieces(v@, r@.push((start, e))) =~= pieces(v@, r@).push(
                        v@.subrange(start as int, e as int),
                    ));
                }
                r.push((start, e));
                assert(ranges_within(r@, lo as int, hi as int)) by {
                    assert(forall|i: int| 0 <= i < r@.len() - 1 ==> r@[i] == old_r[i]);
                }
                start = k + 1;
            },
            None => {
                proof {
                    assert(pieces(v@, r@.push((start, hi))) =~= pieces(v@, r@).push(s));
                }
                r.push((start, hi));
                assert(ranges_within(r@, lo as int, hi as int)) by {
                    assert(forall|i: int| 0 <= i < r@.len() - 1 ==> r@[i] == old_r[i]);
                }
                start = hi;
            },
        }
    }
    proof {
        assert(v@.subrange(hi as int, hi as int).len() == 0);
        assert(pieces(v@, r@) + seq![] =~= pieces(v@, r@));
    }
    r
}

/// `s` with every occurrence of a non-empty `f` replaced by `t`.
pub fn replace_all(s: &[char], f: &[char], t: &[char]) -> (r: Vec<char>)
    requires
        f@.len() > 0,
    ensures
        r@ == replace(s@, f@, t@),
{
    let mut out: Vec<char> = Vec::new();
    let mut start: usize = 0;
    assert(s@.subrange(0, s@.len() as int) =~= s@);
    loop
        invariant
            start <= s@.len(),
            f@.len() > 0,
            replace(s@, f@, t@) == out@ + replace(s@.subrange(start as int, s@.len() as int), f@, t@),
        decreases s@.len() - start,
    {
        let ghost rest = s@.subrange(start as int, s@.len() as int);
        match find_in(s, start, s.len(), f) {
            Some(k) => {
                let ghost before = out@;
                push_range(&mut out, s, start, k);
                push_all(&mut out, t);
                proof {
                    assert(rest.take(k - start) =~= s@.subrange(start as int, k as int));
                    assert(rest.skip(k - start + f@.len()) =~= s@.subrange(
                        k + f@.len(),
                        s@.len() as int,
                    ));
                    assert(before + (s@.subrange(start as int, k as int) + t@ + replace(
                        s@.subrange(k + f@.len(), s@.len() as int),
                        f@,
                        t@,
                    )) =~= out@ + replace(s@.subrange(k + f@.len(), s@.len() as int), f@, t@));
                }
                start = k + f.len();
            },
            None => {
                let ghost before = out@;
                push_range(&mut out, s, start, s.len());
                return out;
            },
        }
    }
}

/// Whether `v[lo..hi]` starts with `p`.
pub fn starts_with_at(v: &[char], lo: usize, hi: usize, p: &[char]) -> (r: bool)
    requires
        lo <= hi <= v@.len(),
    ensures
        r == (strip_prefix(v@.subrange(lo as int, hi as int), p@) is Some),
{
    let r = occurs_at(v, lo, hi, p);
    proof {
        let s = v@.subrange(lo as int, hi as int);
        if p@.len() <= s.len() {
            assert(s.take(p@.len() as int) =~= v@.subrange(lo as int, lo + p@.len()));
        }
    }
    r
}

/// Appends `v[lo..hi]` to `out`.
pub fn push_range(out: &mut Vec<char>, v: &[char], lo: usize, hi: usize)
    requires
        lo <= hi <= v@.len(),
    ensures
        final(out)@ == old(out)@ + v@.subrange(lo as int, hi as int),
{
    let mut i = lo;
    while i < hi
        invariant
            lo <= i <= hi <= v@.len(),
            out@ == old(out)@ + v@.subrange(lo as int, i as int),
        decreases hi - i,
    {
        out.push(v[i]);
        assert(v@.subrange(lo as int, i + 1) =~= v@.subrange(lo as int, i as int).push(v@[i as int]));
        i = i + 1;
    }
}

/// Appends all of `v` to `out`.
pub fn push_all(out: &mut Vec<char>, v: &[char])
    ensures
        final(out)@ == old(out)@ + v@,
{
    push_range(out, v, 0, v.len());
    assert(v@.subrange(0, v@.len() as int) =~= v@);
}

/// Appends the characters of `s` to `out`.
pub fn push_str(out: &mut Vec<char>, s: &str)
    ensures
        final(out)@ == old(out)@ + s@,
{
    let c = chars_of(s);
    push_all(out, c.as_slice());
}

/// The characters of `s`.
pub fn chars_of(s: &str) -> (r: Vec<char>)
    ensures
        r@ == s@,
{
    let mut r: Vec<char> = Vec::new();
    for c in it: s.chars()
        invariant
            r@ == it.seq().take(it.index() as int),
    {
        r.push(c);
    }
    r
}

/// Appends a character to a string.
///
/// Calls `String::push`, which (as its documentation says) appends the character to the end.
#[verifier::external_body]
fn string_push(s: &mut String, c: char)
    ensures
        final(s)@ == old(s)@.push(c),
{
    s.push(c);
}

/// The string that `v[lo..hi]` spells.
pub fn string_of_range(v: &[char], lo: usize, hi: usize) -> (r: String)
    requires
        lo <= hi <= v@.len(),
    ensures
        r@ == v@.subrange(lo as int, hi as int),
{
    let mut r = String::new();
    let mut i = lo;
    while i < hi
        invariant
            lo <= i <= hi <= v@.len(),
            r@ == v@.subrange(lo as int, i as int),
        decreases hi - i,
    {
        string_push(&mut r, v[i]);
        assert(v@.subrange(lo as int, i + 1) =~= v@.subrange(lo as int, i as int).push(v@[i as int]));
        i = i + 1;
    }
    r
}

/// The string that `v` spells.
pub fn string_of(v: &[char]) -> (r: String)
    ensures
        r@ == v@,
{
    let r = string_of_range(v, 0, v.len());
    assert(v@.subrange(0, v@.len() as int) =~= v@);
    r
}

/// The decimal digit for `d < 10`.
pub open spec fn digit(d: nat) -> char {
    if d == 0 {
        '0'
    } else if d == 1 {
        '1'
    } else if d == 2 {
        '2'
    } else if d == 3 {
        '3'
    } else if d == 4 {
        '4'
    } else if d == 5 {
        '5'
    } else if d == 6 {
        '6'
    } else if d == 7 {
        '7'
    } else if d == 8 {
        '8'
    } else {
        '9'
    }
}

/// The decimal notation of `n`, without leading zeros (what `usize`'s `Display` writes).
pub open spec fn decimal(n: nat) -> Seq<char>
    decreases n,
{
    if n < 10 {
        seq![digit(n)]
    } else {
        decimal(n / 10).push(digit(n % 10))
    }
}

fn digit_char(d: usize) -> (c: char)
    requires
        d < 10,
    ensures
        c == digit(d as nat),
{
    if d == 0 {
        '0'
    } else if d == 1 {
        '1'
    } else if d == 2 {
        '2'
    } else if d == 3 {
        '3'
    } else if d == 4 {
        '4'
    } else if d == 5 {
        '5'
    } else if d == 6 {
        '6'
    } else if d == 7 {
        '7'
    } else if d == 8 {
        '8'
    } else {
        '9'
    }
}

/// Appends the decimal notation of `n` to `out`.
pub fn push_decimal(out: &mut Vec<char>, n: usize)
    ensures
        final(out)@ == old(out)@ + decimal(n as nat),
    decreases n,
{
    if n >= 10 {
        push_decimal(out, n / 10);
    }
    out.push(digit_char(n % 10));
    proof {
        if n >= 10 {
            assert(old(out)@ + decimal(n as nat) =~= old(out)@ + decimal((n / 10) as nat) + seq![
                digit((n % 10) as nat),
            ]);
        } else {
            assert(old(out)@ + decimal(n as nat) =~= old(out)@.push(digit((n % 10) as nat)));
        }
    }
}

/// Whether `a` comes before `b` in the order of `str`'s `Ord`: character by character
/// (by code point, which is the order of their UTF-8 bytes), a proper prefix first.
pub open spec fn lex_lt(a: Seq<char>, b: Seq<char>) -> bool
    decreases a.len(),
{
    if b.len() == 0 {
        false
    } else if a.len() == 0 {
        true
    } else if a[0] < b[0] {
        true
    } else if a[0] == b[0] {
        lex_lt(a.drop_first(), b.drop_first())
    } else {
        false
    }
}

/// `lex_lt` is a strict total order.
pub proof fn lemma_lex_irreflexive(a: Seq<char>)
    ensures
        !lex_lt(a, a),
    decreases a.len(),
{
    if a.len() > 0 {
        lemma_lex_irreflexive(a.drop_first());
    }
}

pub proof fn lemma_lex_transitive(a: Seq<char>, b: Seq<char>, c: Seq<char>)
    requires
        lex_lt(a, b),
        lex_lt(b, c),
    ensures
        lex_lt(a, c),
    decreases a.len(),
{
    if a.len() > 0 && b.len() > 0 && c.len() > 0 && a[0] == b[0] && b[0] == c[0] {
        lemma_lex_transitive(a.drop_first(), b.drop_first(), c.drop_first());
    }
}

pub proof fn lemma_lex_total(a: Seq<char>, b: Seq<char>)
    ensures
        a == b || lex_lt(a, b) || lex_lt(b, a),
    decreases a.len(),
{
    if a.len() > 0 && b.len() > 0 && a[0] == b[0] {
        lemma_lex_total(a.drop_first(), b.drop_first());
        if a.drop_first() == b.drop_first() {
            assert(a =~= seq![a[0]] + a.drop_first());
            assert(b =~= seq![b[0]] + b.drop_first());
        }
    } else if a.len() == 0 && b.len() == 0 {
        assert(a =~= b);
    } else if a.len() > 0 && b.len() > 0 {
    }
}

pub proof fn lemma_lex_asymmetric(a: Seq<char>, b: Seq<char>)
    requires
        lex_lt(a, b),
    ensures
        !lex_lt(b, a),
{
    if lex_lt(b, a) {
        lemma_lex_transitive(a, b, a);
        lemma_lex_irreflexive(a);
    }
}

/// Whether `a` comes before `b` (see `lex_lt`).
pub fn chars_lt(a: &[char], b: &[char]) -> (r: bool)
    ensures
        r == lex_lt(a@, b@),
{
    let mut i: usize = 0;
    assert(a@.skip(0) =~= a@ && b@.skip(0) =~= b@);
    while i < a.len() && i < b.len() && a[i] == b[i]
        invariant
            i <= a@.len(),
            i <= b@.len(),
            lex_lt(a@, b@) == lex_lt(a@.skip(i as int), b@.skip(i as int)),
        decreases a.len() - i,
    {
        assert(a@.skip(i as int).drop_first() =~= a@.skip(i + 1));
        assert(b@.skip(i as int).drop_first() =~= b@.skip(i + 1));
        i = i + 1;
    }
    if i == b.len() {
        false
    } else if i == a.len() {
        true
    } else {
        a[i] < b[i]
    }
}

/// Whether `a` comes before `b` (see `lex_lt`).
pub fn str_lt(a: &str, b: &str) -> (r: bool)
    ensures
        r == lex_lt(a@, b@),
{
    let x = chars_of(a);
    let y = chars_of(b);
    chars_lt(x.as_slice(), y.as_slice())
}

/// Whether `a` and `b` hold the same text.
pub fn str_eq(a: &str, b: &str) -> (r: bool)
    ensures
        r == (a@ == b@),
{
    let x = chars_of(a);
    let y = chars_of(b);
    if x.len() != y.len() {
        return false;
    }
    let mut i: usize = 0;
    while i < x.len()
        invariant
            x@ == a@,
            y@ == b@,
            x@.len() == y@.len(),
            i <= x@.len(),
            forall|t: int| 0 <= t < i ==> x@[t] == y@[t],
        decreases x.len() - i,
    {
        if x[i] != y[i] {
            return false;
        }
        i = i + 1;
    }
    assert(x@ =~= y@);
    true
}

} // verus!
