//! Rendering diffs as text: colored lines for what changed, and a summary.
use vstd::prelude::*;
use owo_colors::OwoColorize;
use crate::diff::{first_of, param_diffs_view, test_diffs_view, Diff};
use crate::parse::{deps_view, DepModel, Param, ParamModel, Test, TestDependencyParam, TestModel};
use crate::text::{chars_of, lex_lt, lines, str_eq, str_lt, push_all, push_decimal, push_range, push_str, string_of};

verus! {

/// Text between the escape codes that turn the foreground red and back.
pub open spec fn red_text(s: Seq<char>) -> Seq<char> {
    "\x1b[31m"@ + s + "\x1b[39m"@
}

/// Text between the escape codes that turn the foreground green and back.
pub open spec fn green_text(s: Seq<char>) -> Seq<char> {
    "\x1b[32m"@ + s + "\x1b[39m"@
}

/// Text between the escape codes that turn bold on and reset the style.
pub open spec fn bold_text(s: Seq<char>) -> Seq<char> {
    "\x1b[1m"@ + s + "\x1b[0m"@
}

/// Calls owo-colors' `OwoColorize::red` on `s` and displays it; owo-colors writes the
/// code for a red foreground (`ESC[31m`), the text, and the code for the default
/// foreground (`ESC[39m`).
#[verifier::external_body]
fn red(s: &str) -> (r: String)
    ensures
        r@ == red_text(s@),
{
    s.red().to_string()
}

/// Calls owo-colors' `OwoColorize::green` on `s` and displays it; owo-colors writes the
/// code for a green foreground (`ESC[32m`), the text, and the code for the default
/// foreground (`ESC[39m`).
#[verifier::external_body]
fn green(s: &str) -> (r: String)
    ensures
        r@ == green_text(s@),
{
    s.green().to_string()
}

/// Calls owo-colors' `OwoColorize::bold` on `s` and displays it; owo-colors writes the
/// code for bold (`ESC[1m`), the text, and the code that resets the style (`ESC[0m`).
#[verifier::external_body]
fn bold(s: &str) -> (r: String)
    ensures
        r@ == bold_text(s@),
{
    s.bold().to_string()
}

/// An error as shown to the user: on a line of its own after a blank one, in red.
pub open spec fn error_text(error: Seq<char>) -> Seq<char> {
    red_text("\nerror: "@ + error)
}

/// The text that reports an error (see `error_text`); the caller writes it to the error
/// stream.
pub fn print_error(error: &str) -> (r: String)
    ensures
        r@ == error_text(error@),
{
    let mut out: Vec<char> = Vec::new();
    push_str(&mut out, "\nerror: ");
    push_str(&mut out, error);
    let msg = string_of(out.as_slice());
    red(msg.as_str())
}

/// How many diffs report an item added, removed, or changed.
pub struct DiffSummary {
    pub added: usize,
    pub removed: usize,
    pub changed: usize,
}

/// The number of diffs that report an item only in the new run.
pub open spec fn count_added<T>(ds: Seq<Diff<T>>) -> nat
    decreases ds.len(),
{
    if ds.len() == 0 {
        0
    } else {
        count_added(ds.drop_last()) + if ds.last() is NewOnly {
            1nat
        } else {
            0nat
        }
    }
}

/// The number of diffs that report an item only in the old run.
pub open spec fn count_removed<T>(ds: Seq<Diff<T>>) -> nat
    decreases ds.len(),
{
    if ds.len() == 0 {
        0
    } else {
        count_removed(ds.drop_last()) + if ds.last() is OldOnly {
            1nat
        } else {
            0nat
        }
    }
}

/// The number of diffs that report an item changed.
pub open spec fn count_changed<T>(ds: Seq<Diff<T>>) -> nat
    decreases ds.len(),
{
    if ds.len() == 0 {
        0
    } else {
        count_changed(ds.drop_last()) + if ds.last() is Different {
            1nat
        } else {
            0nat
        }
    }
}

/// The three counts never exceed the number of diffs together.
pub proof fn lemma_counts_bounded<T>(ds: Seq<Diff<T>>)
    ensures
        count_added(ds) + count_removed(ds) + count_changed(ds) <= ds.len(),
    decreases ds.len(),
{
    if ds.len() > 0 {
        lemma_counts_bounded(ds.drop_last());
    }
}

/// The counts of diffs do not depend on what the items hold.
pub proof fn lemma_counts_view<T: View>(ds: Seq<Diff<T>>)
    ensures
        count_added(ds.map_values(|d: Diff<T>| d@)) == count_added(ds),
        count_removed(ds.map_values(|d: Diff<T>| d@)) == count_removed(ds),
        count_changed(ds.map_values(|d: Diff<T>| d@)) == count_changed(ds),
    decreases ds.len(),
{
    if ds.len() > 0 {
        lemma_counts_view(ds.drop_last());
        assert(ds.map_values(|d: Diff<T>| d@).drop_last() =~= ds.drop_last().map_values(
            |d: Diff<T>| d@,
        ));
    }
}

/// Counts the diffs that report an item added, removed, or changed.
pub fn summarize<T>(diffs: &[Diff<T>]) -> (s: DiffSummary)
    ensures
        s.added == count_added(diffs@),
        s.removed == count_removed(diffs@),
        s.changed == count_changed(diffs@),
{
    let mut s = DiffSummary { added: 0, removed: 0, changed: 0 };
    let mut i: usize = 0;
    while i < diffs.len()
        invariant
            i <= diffs@.len(),
            s.added == count_added(diffs@.take(i as int)),
            s.removed == count_removed(diffs@.take(i as int)),
            s.changed == count_changed(diffs@.take(i as int)),
        decreases diffs.len() - i,
    {
        proof {
            assert(diffs@.take(i + 1).drop_last() =~= diffs@.take(i as int));
            lemma_counts_bounded(diffs@.take(i as int));
        }
        match &diffs[i] {
            Diff::OldOnly(_) => {
                s.removed = s.removed + 1;
            },
            Diff::Same(_) => {},
            Diff::Different(_, _) => {
                s.changed = s.changed + 1;
            },
            Diff::NewOnly(_) => {
                s.added = s.added + 1;
            },
        }
        i = i + 1;
    }
    assert(diffs@.take(i as int) =~= diffs@);
    s
}

/// The summary line: `summary:` in bold, then the counts of added, removed and changed
/// items, and a line break.
pub open spec fn summary_text<T>(ds: Seq<Diff<T>>) -> Seq<char> {
    bold_text("summary:"@) + " "@ + crate::text::decimal(count_added(ds)) + " added, "@
        + crate::text::decimal(count_removed(ds)) + " removed, "@ + crate::text::decimal(
        count_changed(ds),
    ) + " changed\n"@
}

/// The summary line of the diffs (see `summary_text`).
pub fn print_diff_summary<T>(diffs: &[Diff<T>]) -> (r: String)
    ensures
        r@ == summary_text(diffs@),
{
    let s = summarize(diffs);
    let mut out: Vec<char> = Vec::new();
    let b = bold("summary:");
    push_str(&mut out, b.as_str());
    push_str(&mut out, " ");
    push_decimal(&mut out, s.added);
    push_str(&mut out, " added, ");
    push_decimal(&mut out, s.removed);
    push_str(&mut out, " removed, ");
    push_decimal(&mut out, s.changed);
    push_str(&mut out, " changed\n");
    string_of(out.as_slice())
}

/// `s` with `x` placed after the last item that `x` does not come before (`lt`): one step
/// of a stable insertion sort.
pub open spec fn insert_by<A>(s: Seq<A>, x: A, lt: spec_fn(A, A) -> bool) -> Seq<A>
    decreases s.len(),
{
    if s.len() == 0 {
        seq![x]
    } else if lt(x, s.last()) {
        insert_by(s.drop_last(), x, lt).push(s.last())
    } else {
        s.push(x)
    }
}

/// `s` sorted by `lt`, items that neither comes before keeping their order (what a stable
/// sort such as `slice::sort_by` gives).
pub open spec fn sort_by<A>(s: Seq<A>, lt: spec_fn(A, A) -> bool) -> Seq<A>
    decreases s.len(),
{
    if s.len() == 0 {
        s
    } else {
        insert_by(sort_by(s.drop_last(), lt), s.last(), lt)
    }
}

/// No item comes before one ahead of it.
pub open spec fn sorted_by<A>(s: Seq<A>, lt: spec_fn(A, A) -> bool) -> bool {
    forall|i: int, j: int| 0 <= i < j < s.len() ==> !lt(#[trigger] s[j], #[trigger] s[i])
}

/// `lt` orders items strictly, with ties that stay ties (a strict weak order).
pub open spec fn weak_order<A>(lt: spec_fn(A, A) -> bool) -> bool {
    &&& forall|a: A, b: A| #[trigger] lt(a, b) ==> !lt(b, a)
    &&& forall|a: A, b: A, c: A| #![trigger lt(a, b), lt(b, c)] !lt(a, b) && !lt(b, c) ==> !lt(a, c)
}

/// Inserting by `lt` puts `x` after the items it does not come before, and before the
/// ones after them.
proof fn lemma_insert_by_position<A>(s: Seq<A>, x: A, lt: spec_fn(A, A) -> bool) -> (j: int)
    ensures
        0 <= j <= s.len(),
        insert_by(s, x, lt) == s.insert(j, x),
        forall|k: int| j <= k < s.len() ==> lt(x, #[trigger] s[k]),
        j == 0 || !lt(x, s[j - 1]),
    decreases s.len(),
{
    if s.len() == 0 {
        assert(s.insert(0, x) =~= seq![x]);
        0
    } else if lt(x, s.last()) {
        let j = lemma_insert_by_position(s.drop_last(), x, lt);
        assert(s.drop_last().insert(j, x).push(s.last()) =~= s.insert(j, x));
        assert forall|k: int| j <= k < s.len() implies lt(x, #[trigger] s[k]) by {
            if k < s.len() - 1 {
                assert(s.drop_last()[k] == s[k]);
            }
        }
        if j > 0 {
            assert(s.drop_last()[j - 1] == s[j - 1]);
        }
        j
    } else {
        assert(s.push(x) =~= s.insert(s.len() as int, x));
        s.len() as int
    }
}

/// Sorting by a strict weak order gives the same items, each after none that it comes
/// before.
pub proof fn law_sort_by<A>(s: Seq<A>, lt: spec_fn(A, A) -> bool)
    requires
        weak_order(lt),
    ensures
        sorted_by(sort_by(s, lt), lt),
        sort_by(s, lt).to_multiset() == s.to_multiset(),
    decreases s.len(),
{
    broadcast use vstd::seq_lib::to_multiset_build, vstd::seq_lib::to_multiset_insert;

    if s.len() > 0 {
        let t = sort_by(s.drop_last(), lt);
        law_sort_by(s.drop_last(), lt);
        let x = s.last();
        let j = lemma_insert_by_position(t, x, lt);
        let r = t.insert(j, x);
        assert(s =~= s.drop_last().push(x));
        assert forall|a: int, b: int| 0 <= a < b < r.len() implies !lt(
            #[trigger] r[b],
            #[trigger] r[a],
        ) by {
            if b < j {
                assert(r[a] == t[a] && r[b] == t[b]);
            } else if b == j {
                assert(r[a] == t[a]);
                assert(!lt(x, t[j - 1]));
                if a < j - 1 {
                    assert(!lt(t[j - 1], t[a]));
                }
            } else if a < j {
                assert(r[a] == t[a] && r[b] == t[b - 1]);
            } else if a == j {
                assert(r[b] == t[b - 1]);
                assert(lt(x, t[b - 1]));
            } else {
                assert(r[a] == t[a - 1] && r[b] == t[b - 1]);
            }
        }
    }
}

/// Where `x` comes before every item from `j` on and not before the one just before `j`,
/// inserting it by `lt` puts it at `j`.
pub proof fn lemma_insert_by<A>(s: Seq<A>, x: A, lt: spec_fn(A, A) -> bool, j: int)
    requires
        0 <= j <= s.len(),
        forall|k: int| j <= k < s.len() ==> lt(x, #[trigger] s[k]),
        j == 0 || !lt(x, s[j - 1]),
    ensures
        insert_by(s, x, lt) == s.insert(j, x),
    decreases s.len(),
{
    if s.len() == 0 {
        assert(s.insert(j, x) =~= seq![x]);
    } else if lt(x, s.last()) {
        if j == s.len() {
            assert(false);
        }
        lemma_insert_by(s.drop_last(), x, lt, j);
        assert(s.drop_last().insert(j, x).push(s.last()) =~= s.insert(j, x));
    } else {
        if j < s.len() {
            assert(lt(x, s[s.len() - 1]));
        }
        assert(s.push(x) =~= s.insert(j, x));
    }
}

/// `v` sorted stably by `before`, which answers as `lt` does on the items' models
/// (an insertion sort).
fn sort_items<T: View, F: Fn(&T, &T) -> bool>(
    v: Vec<T>,
    before: &F,
    Ghost(lt): Ghost<spec_fn(T::V, T::V) -> bool>,
) -> (r: Vec<T>)
    requires
        forall|a: &T, b: &T| call_requires(*before, (a, b)),
        forall|a: &T, b: &T, x: bool| call_ensures(*before, (a, b), x) ==> x == lt(a@, b@),
    ensures
        r@.map_values(|x: T| x@) == sort_by(v@.map_values(|x: T| x@), lt),
{
    let ghost orig = v@;
    let mut v = v;
    let mut out: Vec<T> = Vec::new();
    let n = v.len();
    let mut i: usize = 0;
    assert(orig.skip(0) =~= orig);
    assert(orig.take(0).map_values(|x: T| x@) =~= Seq::<T::V>::empty());
    while i < n
        invariant
            n == orig.len(),
            i <= n,
            v@ == orig.skip(i as int),
            forall|a: &T, b: &T| call_requires(*before, (a, b)),
            forall|a: &T, b: &T, x: bool| call_ensures(*before, (a, b), x) ==> x == lt(a@, b@),
            out@.map_values(|x: T| x@) == sort_by(orig.take(i as int).map_values(|x: T| x@), lt),
        decreases n - i,
    {
        let x = v.remove(0);
        assert(x == orig[i as int]);
        assert(v@ =~= orig.skip(i + 1));
        let ghost ov = out@.map_values(|x: T| x@);
        let mut j = out.len();
        while j > 0 && before(&x, &out[j - 1])
            invariant
                j <= out@.len(),
                ov == out@.map_values(|x: T| x@),
                forall|a: &T, b: &T| call_requires(*before, (a, b)),
                forall|a: &T, b: &T, x: bool| call_ensures(*before, (a, b), x) ==> x == lt(a@, b@),
                forall|k: int| j <= k < ov.len() ==> lt(x@, #[trigger] ov[k]),
            decreases j,
        {
            assert(ov[j - 1] == out@[j - 1]@);
            j = j - 1;
        }
        proof {
            if j > 0 {
                assert(ov[j - 1] == out@[j - 1]@);
            }
            lemma_insert_by(ov, x@, lt, j as int);
            assert(orig.take(i + 1).map_values(|x: T| x@).drop_last() =~= orig.take(
                i as int,
            ).map_values(|x: T| x@));
            assert(orig.take(i + 1).map_values(|x: T| x@).last() == x@);
        }
        out.insert(j, x);
        assert(out@.map_values(|x: T| x@) =~= ov.insert(j as int, x@));
        i = i + 1;
    }
    assert(orig.take(n as int) =~= orig);
    out
}

/// Dependencies in the order of their names.
pub open spec fn dep_lt(a: DepModel, b: DepModel) -> bool {
    lex_lt(a.name, b.name)
}

fn dep_before(a: &TestDependencyParam, b: &TestDependencyParam) -> (r: bool)
    ensures
        r == dep_lt(a@, b@),
{
    str_lt(a.name.as_str(), b.name.as_str())
}

/// Sorts dependencies by name, keeping the order of those with equal names.
pub fn sort_deps(v: Vec<TestDependencyParam>) -> (r: Vec<TestDependencyParam>)
    ensures
        deps_view(r@) == sort_by(deps_view(v@), |a: DepModel, b: DepModel| dep_lt(a, b)),
{
    let ghost v0 = v@;
    let before = |a: &TestDependencyParam, b: &TestDependencyParam| -> (x: bool)
        ensures
            x == dep_lt(a@, b@),
    {
        dep_before(a, b)
    };
    let r = sort_items(v, &before, Ghost(|a: DepModel, b: DepModel| dep_lt(a, b)));
    assert(deps_view(r@) =~= r@.map_values(|x: TestDependencyParam| x@));
    assert(deps_view(v0) =~= v0.map_values(|x: TestDependencyParam| x@));
    r
}


/// Diffs of parameters in the order of the names they show.
pub open spec fn param_diff_lt(a: Diff<ParamModel>, b: Diff<ParamModel>) -> bool {
    lex_lt(first_of(a).name, first_of(b).name)
}

fn param_diff_before(a: &Diff<Param>, b: &Diff<Param>) -> (r: bool)
    ensures
        r == param_diff_lt(a@, b@),
{
    str_lt(a.first().name.as_str(), b.first().name.as_str())
}

/// Sorts diffs of parameters by name, keeping the order of those with equal names.
pub fn sort_param_diffs(v: Vec<Diff<Param>>) -> (r: Vec<Diff<Param>>)
    ensures
        param_diffs_view(r@) == sort_by(param_diffs_view(v@), |a: Diff<ParamModel>, b: Diff<ParamModel>| param_diff_lt(a, b)),
{
    let ghost v0 = v@;
    let before = |a: &Diff<Param>, b: &Diff<Param>| -> (x: bool)
        ensures
            x == param_diff_lt(a@, b@),
    {
        param_diff_before(a, b)
    };
    let r = sort_items(v, &before, Ghost(|a: Diff<ParamModel>, b: Diff<ParamModel>| param_diff_lt(a, b)));
    assert(param_diffs_view(r@) =~= r@.map_values(|x: Diff<Param>| x@));
    assert(param_diffs_view(v0) =~= v0.map_values(|x: Diff<Param>| x@));
    r
}


/// Diffs of tests in the order of the models, then the expressions, they show.
pub open spec fn test_diff_lt(a: Diff<TestModel>, b: Diff<TestModel>) -> bool {
    lex_lt(first_of(a).model, first_of(b).model) || (first_of(a).model == first_of(b).model && lex_lt(
        first_of(a).expression,
        first_of(b).expression,
    ))
}

fn test_diff_before(a: &Diff<Test>, b: &Diff<Test>) -> (r: bool)
    ensures
        r == test_diff_lt(a@, b@),
{
    let (x, y) = (a.first(), b.first());
    str_lt(x.model.as_str(), y.model.as_str()) || (str_eq(x.model.as_str(), y.model.as_str()) && str_lt(
        x.expression.as_str(),
        y.expression.as_str(),
    ))
}

/// Sorts diffs of tests by model, then expression, keeping the order of those with equal ones.
pub fn sort_test_diffs(v: Vec<Diff<Test>>) -> (r: Vec<Diff<Test>>)
    ensures
        test_diffs_view(r@) == sort_by(test_diffs_view(v@), |a: Diff<TestModel>, b: Diff<TestModel>| test_diff_lt(a, b)),
{
    let ghost v0 = v@;
    let before = |a: &Diff<Test>, b: &Diff<Test>| -> (x: bool)
        ensures
            x == test_diff_lt(a@, b@),
    {
        test_diff_before(a, b)
    };
    let r = sort_items(v, &before, Ghost(|a: Diff<TestModel>, b: Diff<TestModel>| test_diff_lt(a, b)));
    assert(test_diffs_view(r@) =~= r@.map_values(|x: Diff<Test>| x@));
    assert(test_diffs_view(v0) =~= v0.map_values(|x: Diff<Test>| x@));
    r
}


/// `n` spaces.
pub open spec fn spaces(n: nat) -> Seq<char> {
    Seq::new(n, |i: int| ' ')
}

/// The texts one after another, `sep` between each two.
pub open spec fn join(ls: Seq<Seq<char>>, sep: Seq<char>) -> Seq<char>
    decreases ls.len(),
{
    if ls.len() == 0 {
        seq![]
    } else if ls.len() == 1 {
        ls[0]
    } else {
        join(ls.drop_last(), sep) + sep + ls.last()
    }
}

fn push_spaces(out: &mut Vec<char>, n: usize)
    ensures
        final(out)@ == old(out)@ + spaces(n as nat),
{
    let mut i: usize = 0;
    while i < n
        invariant
            i <= n,
            out@ == old(out)@ + spaces(i as nat),
        decreases n - i,
    {
        out.push(' ');
        assert(old(out)@ + spaces((i + 1) as nat) =~= old(out)@ + spaces(i as nat) + seq![' ']);
        i = i + 1;
    }
}

/// `text` after `amount` spaces.
pub open spec fn indented_line(text: Seq<char>, amount: nat) -> Seq<char> {
    spaces(amount) + text
}

/// Puts `amount` spaces before `text`.
pub fn indent_line(text: &str, amount: usize) -> (r: String)
    ensures
        r@ == indented_line(text@, amount as nat),
{
    let mut out: Vec<char> = Vec::new();
    push_spaces(&mut out, amount);
    push_str(&mut out, text);
    string_of(out.as_slice())
}

/// Every line of `text` after `prefix` and enough spaces to fill `amount` columns (as
/// many as `amount` exceeds the length of `prefix` in UTF-8 bytes), the lines joined by
/// line breaks.
pub open spec fn indented_all(text: Seq<char>, amount: nat, prefix: Seq<char>) -> Seq<char> {
    let bytes = vstd::utf8::encode_utf8(prefix).len();
    let pad: nat = if amount >= bytes {
        (amount - bytes) as nat
    } else {
        0
    };
    let indent = prefix + spaces(pad);
    join(lines(text).map_values(|l: Seq<char>| indent + l), "\n"@)
}

fn indent_chars(text: &[char], amount: usize, prefix: &str) -> (r: Vec<char>)
    ensures
        r@ == indented_all(text@, amount as nat, prefix@),
{
    let bytes = prefix.as_bytes().len();
    let pad = if amount >= bytes {
        amount - bytes
    } else {
        0
    };
    let mut indent: Vec<char> = Vec::new();
    push_str(&mut indent, prefix);
    push_spaces(&mut indent, pad);
    let ghost ind = indent@;
    assert(text@.subrange(0, text@.len() as int) =~= text@);
    let ranges = crate::text::line_ranges(text, 0, text.len());
    let ghost ls = lines(text@).map_values(|l: Seq<char>| ind + l);
    let mut out: Vec<char> = Vec::new();
    let nl = chars_of("\n");
    let mut i: usize = 0;
    assert(ls.take(0) =~= Seq::<Seq<char>>::empty());
    while i < ranges.len()
        invariant
            i <= ranges@.len(),
            crate::text::ranges_within(ranges@, 0, text@.len() as int),
            crate::text::pieces(text@, ranges@) == lines(text@),
            ls == lines(text@).map_values(|l: Seq<char>| ind + l),
            indent@ == ind,
            nl@ == "\n"@,
            out@ == join(ls.take(i as int), "\n"@),
        decreases ranges.len() - i,
    {
        let (a, b) = ranges[i];
        assert(crate::text::pieces(text@, ranges@)[i as int] == text@.subrange(a as int, b as int));
        let ghost before = out@;
        if i > 0 {
            push_all(&mut out, nl.as_slice());
        }
        push_all(&mut out, indent.as_slice());
        push_range(&mut out, text, a, b);
        proof {
            let t = ls.take(i + 1);
            assert(t.drop_last() =~= ls.take(i as int));
            assert(t.last() == ind + text@.subrange(a as int, b as int));
            if i == 0 {
                assert(out@ =~= t[0]);
            } else {
                assert(out@ =~= before + "\n"@ + t.last());
            }
        }
        i = i + 1;
    }
    assert(ls.take(i as int) =~= ls);
    out
}

/// Puts `prefix`, and spaces up to `amount` columns, before every line of `text`.
pub fn indent_all_with_prefix(text: &str, amount: usize, prefix: &str) -> (r: String)
    ensures
        r@ == indented_all(text@, amount as nat, prefix@),
{
    let t = chars_of(text);
    let out = indent_chars(t.as_slice(), amount, prefix);
    string_of(out.as_slice())
}

/// `show` can be asked of any number and answers by its text alone.
pub open spec fn shows_well<G: Fn(&String) -> String>(show: G) -> bool {
    &&& forall|a: &String| call_requires(show, (a,))
    &&& forall|a1: &String, a2: &String, r1: String, r2: String|
        #![trigger call_ensures(show, (a1,), r1), call_ensures(show, (a2,), r2)]
        call_ensures(show, (a1,), r1) && call_ensures(show, (a2,), r2) && a1@ == a2@ ==> r1@
            == r2@
}

/// What `show` writes for the number written `a`.
pub open spec fn shown<G: Fn(&String) -> String>(show: G, a: Seq<char>) -> Seq<char> {
    (choose|x: &String, r: String| x@ == a && #[trigger] call_ensures(show, (x,), r)).1@
}

fn show_number<G: Fn(&String) -> String>(show: &G, a: &String) -> (r: String)
    requires
        shows_well(*show),
    ensures
        r@ == shown(*show, a@),
{
    let r = show(a);
    proof {
        assert(call_ensures(*show, (a,), r));
        let (x, c) = choose|x: &String, c: String|
            x@ == a@ && #[trigger] call_ensures(*show, (x,), c);
        assert(call_ensures(*show, (x,), c));
    }
    r
}

/// A number as written: what `show` writes, with `.0` added where that has no dot.
pub open spec fn float_text(s: Seq<char>) -> Seq<char> {
    if crate::text::contains(s, "."@) {
        s
    } else {
        s + ".0"@
    }
}

fn push_float<G: Fn(&String) -> String>(out: &mut Vec<char>, v: &String, show: &G)
    requires
        shows_well(*show),
    ensures
        final(out)@ == old(out)@ + float_text(shown(*show, v@)),
{
    let s = show_number(show, v);
    let c = chars_of(s.as_str());
    let dot = chars_of(".");
    assert(c@ =~= c@.subrange(0, c@.len() as int));
    push_all(out, c.as_slice());
    if crate::text::find_in(c.as_slice(), 0, c.len(), dot.as_slice()).is_none() {
        push_str(out, ".0");
    }
}

/// A value as written: numbers by `float_text`, `<empty>`, `min | max`, or a string in
/// single quotes.
pub open spec fn value_text<G: Fn(&String) -> String>(show: G, v: crate::parse::ValueModel) -> Seq<char> {
    match v {
        crate::parse::ValueModel::Scalar(x) => float_text(shown(show, x)),
        crate::parse::ValueModel::EmptyInterval => "<empty>"@,
        crate::parse::ValueModel::Interval { min, max } => float_text(shown(show, min)) + " | "@
            + float_text(shown(show, max)),
        crate::parse::ValueModel::Str(s) => "'"@ + s + "'"@,
    }
}

fn push_value<G: Fn(&String) -> String>(out: &mut Vec<char>, v: &crate::parse::ParamValue, show: &G)
    requires
        shows_well(*show),
    ensures
        final(out)@ == old(out)@ + value_text(*show, v@),
{
    match v {
        crate::parse::ParamValue::Scalar(x) => push_float(out, x, show),
        crate::parse::ParamValue::EmptyInterval => push_str(out, "<empty>"),
        crate::parse::ParamValue::Interval { min, max } => {
            push_float(out, min, show);
            push_str(out, " | ");
            push_float(out, max, show);
        },
        crate::parse::ParamValue::Str(s) => {
            push_str(out, "'");
            push_str(out, s.as_str());
            push_str(out, "'");
        },
    }
}

/// A unit as written after a value: ` :unit`, or nothing.
pub open spec fn unit_text(u: Option<Seq<char>>) -> Seq<char> {
    match u {
        Some(u) => " :"@ + u,
        None => seq![],
    }
}

fn push_unit(out: &mut Vec<char>, u: &Option<String>)
    ensures
        final(out)@ == old(out)@ + unit_text(crate::parse::opt_view(*u)),
{
    match u {
        Some(u) => {
            push_str(out, " :");
            push_str(out, u.as_str());
        },
        None => {
            assert(old(out)@ + seq![] =~= old(out)@);
        },
    }
}

/// A parameter as written: `name = value [:unit]  # description`.
pub open spec fn param_text<G: Fn(&String) -> String>(show: G, p: ParamModel) -> Seq<char> {
    p.name + " = "@ + value_text(show, p.value) + unit_text(p.unit) + "  # "@ + p.description
}

fn push_param<G: Fn(&String) -> String>(out: &mut Vec<char>, p: &Param, show: &G)
    requires
        shows_well(*show),
    ensures
        final(out)@ == old(out)@ + param_text(*show, p@),
{
    push_str(out, p.name.as_str());
    push_str(out, " = ");
    push_value(out, &p.value, show);
    push_unit(out, &p.unit);
    push_str(out, "  # ");
    push_str(out, p.description.as_str());
}

/// Writes a parameter (see `param_text`).
pub fn param_to_string<G: Fn(&String) -> String>(param: &Param, show: &G) -> (r: String)
    requires
        shows_well(*show),
    ensures
        r@ == param_text(*show, param@),
{
    let mut out: Vec<char> = Vec::new();
    push_param(&mut out, param, show);
    string_of(out.as_slice())
}

/// A dependency as written: `- name = value [:unit]`.
pub open spec fn dep_text<G: Fn(&String) -> String>(show: G, d: DepModel) -> Seq<char> {
    "- "@ + d.name + " = "@ + value_text(show, d.value) + unit_text(d.unit)
}

fn push_dep<G: Fn(&String) -> String>(out: &mut Vec<char>, d: &TestDependencyParam, show: &G)
    requires
        shows_well(*show),
    ensures
        final(out)@ == old(out)@ + dep_text(*show, d@),
{
    push_str(out, "- ");
    push_str(out, d.name.as_str());
    push_str(out, " = ");
    push_value(out, &d.value, show);
    push_unit(out, &d.unit);
}

/// Writes a dependency (see `dep_text`).
pub fn test_dependency_param_to_string<G: Fn(&String) -> String>(
    param: &TestDependencyParam,
    show: &G,
) -> (r: String)
    requires
        shows_well(*show),
    ensures
        r@ == dep_text(*show, param@),
{
    let mut out: Vec<char> = Vec::new();
    push_dep(&mut out, param, show);
    string_of(out.as_slice())
}

/// The lines of a test as written: `test (model): expression`, the result indented, and
/// after a failure its dependencies indented, sorted by name.
pub open spec fn test_lines<G: Fn(&String) -> String>(show: G, t: TestModel) -> Seq<Seq<char>> {
    let main = "test ("@ + t.model + "): "@ + t.expression;
    match t.result {
        crate::parse::ResultModel::Pass => seq![main, indented_line("result: pass"@, 2)],
        crate::parse::ResultModel::Fail(ds) => seq![main, indented_line("result: fail"@, 2)]
            + sort_by(ds, |a: DepModel, b: DepModel| dep_lt(a, b)).map_values(
            |d: DepModel| indented_line(dep_text(show, d), 2),
        ),
    }
}

/// A test as written: its lines joined by line breaks.
pub open spec fn test_text<G: Fn(&String) -> String>(show: G, t: TestModel) -> Seq<char> {
    join(test_lines(show, t), "\n"@)
}

fn push_test<G: Fn(&String) -> String>(out: &mut Vec<char>, t: &Test, show: &G)
    requires
        shows_well(*show),
    ensures
        final(out)@ == old(out)@ + test_text(*show, t@),
{
    let ghost start = old(out)@;
    let mut body: Vec<char> = Vec::new();
    push_str(&mut body, "test (");
    push_str(&mut body, t.model.as_str());
    push_str(&mut body, "): ");
    push_str(&mut body, t.expression.as_str());
    let ghost main = body@;
    push_str(&mut body, "\n");
    push_spaces(&mut body, 2);
    match &t.result {
        crate::parse::TestResult::Pass => {
            push_str(&mut body, "result: pass");
            assert(body@ =~= join(test_lines(*show, t@), "\n"@)) by {
                let ls = test_lines(*show, t@);
                assert(ls.drop_last() =~= seq![main]);
                assert(join(seq![main], "\n"@) == main);
                assert(body@ =~= main + "\n"@ + ls[1]);
            }
        },
        crate::parse::TestResult::Fail(ds) => {
            push_str(&mut body, "result: fail");
            let sorted = sort_deps(crate::parse::copy_deps(ds));
            let ghost ls = test_lines(*show, t@);
            let ghost sv = deps_view(sorted@);
            assert(sv == sort_by(deps_view(ds@), |a: DepModel, b: DepModel| dep_lt(a, b)));
            assert(body@ =~= join(ls.take(2), "\n"@)) by {
                assert(ls.take(2).drop_last() =~= seq![main]);
                assert(join(seq![main], "\n"@) == main);
                assert(body@ =~= main + "\n"@ + ls[1]);
            }
            let mut i: usize = 0;
            while i < sorted.len()
                invariant
                    i <= sorted@.len(),
                    shows_well(*show),
                    sv == deps_view(sorted@),
                    ls.len() == 2 + sv.len(),
                    forall|k: int| 0 <= k < sv.len() ==> #[trigger] ls[k + 2] == indented_line(
                        dep_text(*show, sv[k]),
                        2,
                    ),
                    body@ == join(ls.take(i + 2), "\n"@),
                decreases sorted.len() - i,
            {
                let ghost before = body@;
                push_str(&mut body, "\n");
                push_spaces(&mut body, 2);
                push_dep(&mut body, &sorted[i], show);
                proof {
                    assert(ls.take(i + 3).drop_last() =~= ls.take(i + 2));
                    assert(ls[i + 2] == indented_line(dep_text(*show, sv[i as int]), 2));
                    assert(body@ =~= before + "\n"@ + ls[i + 2]);
                }
                i = i + 1;
            }
            assert(ls.take(i + 2) =~= ls);
        },
    }
    push_all(out, body.as_slice());
}

/// Writes a test (see `test_text`).
pub fn test_to_string<G: Fn(&String) -> String>(test: &Test, show: &G) -> (r: String)
    requires
        shows_well(*show),
    ensures
        r@ == test_text(*show, test@),
{
    let mut out: Vec<char> = Vec::new();
    push_test(&mut out, test, show);
    string_of(out.as_slice())
}

/// How a diff is written: what only the old run has in red with `-`, what only the new
/// run has in green with `+`, a change as both, and an unchanged item with a blank only
/// where `include_unchanged` asks for it; each followed by a line break.
pub open spec fn diff_text<M>(
    d: Diff<M>,
    include_unchanged: bool,
    text: spec_fn(M) -> Seq<char>,
) -> Seq<char> {
    match d {
        Diff::OldOnly(a) => red_text(indented_all(text(a), 2, "-"@)) + "\n"@,
        Diff::Same(a) => if include_unchanged {
            indented_all(text(a), 2, " "@) + "\n"@
        } else {
            seq![]
        },
        Diff::Different(o, n) => red_text(indented_all(text(o), 2, "-"@)) + "\n"@ + green_text(
            indented_all(text(n), 2, "+"@),
        ) + "\n"@,
        Diff::NewOnly(a) => green_text(indented_all(text(a), 2, "+"@)) + "\n"@,
    }
}

/// How a sequence of diffs is written: each in turn.
pub open spec fn diffs_text<M>(
    ds: Seq<Diff<M>>,
    include_unchanged: bool,
    text: spec_fn(M) -> Seq<char>,
) -> Seq<char>
    decreases ds.len(),
{
    if ds.len() == 0 {
        seq![]
    } else {
        diffs_text(ds.drop_last(), include_unchanged, text) + diff_text(
            ds.last(),
            include_unchanged,
            text,
        )
    }
}

/// Items that are written as text, numbers shown by a given function.
pub trait Printable<G: Fn(&String) -> String>: View + Sized {
    /// The text of an item, numbers shown by `show`.
    spec fn text_spec(show: G, m: Self::V) -> Seq<char>;

    /// Writes the item (see `text_spec`).
    fn text_chars(&self, show: &G) -> (r: Vec<char>)
        requires
            shows_well(*show),
        ensures
            r@ == Self::text_spec(*show, self@),
    ;
}

impl<G: Fn(&String) -> String> Printable<G> for Param {
    open spec fn text_spec(show: G, m: ParamModel) -> Seq<char> {
        param_text(show, m)
    }

    fn text_chars(&self, show: &G) -> (r: Vec<char>) {
        param_chars(self, show)
    }
}

impl<G: Fn(&String) -> String> Printable<G> for Test {
    open spec fn text_spec(show: G, m: TestModel) -> Seq<char> {
        test_text(show, m)
    }

    fn text_chars(&self, show: &G) -> (r: Vec<char>) {
        test_chars(self, show)
    }
}

/// Writes each diff in turn (see `diffs_text`).
fn render_diffs<G: Fn(&String) -> String, T: Printable<G>>(
    diffs: &Vec<Diff<T>>,
    include_unchanged: bool,
    show: &G,
) -> (r: Vec<char>)
    requires
        shows_well(*show),
    ensures
        r@ == diffs_text(
            diffs@.map_values(|d: Diff<T>| d@),
            include_unchanged,
            |x: T::V| T::text_spec(*show, x),
        ),
{
    let ghost spec_text = |x: T::V| T::text_spec(*show, x);
    let ghost dv = diffs@.map_values(|d: Diff<T>| d@);
    let mut out: Vec<char> = Vec::new();
    let mut i: usize = 0;
    assert(dv.take(0) =~= Seq::<Diff<T::V>>::empty());
    while i < diffs.len()
        invariant
            i <= diffs@.len(),
            dv == diffs@.map_values(|d: Diff<T>| d@),
            shows_well(*show),
            spec_text == (|x: T::V| T::text_spec(*show, x)),
            out@ == diffs_text(dv.take(i as int), include_unchanged, spec_text),
        decreases diffs.len() - i,
    {
        let ghost before = out@;
        let ghost d = dv[i as int];
        assert(d == diffs@[i as int]@);
        match &diffs[i] {
            Diff::OldOnly(a) => {
                let t = a.text_chars(show);
                push_colored(&mut out, t.as_slice(), "-", true);
            },
            Diff::Same(a) => {
                if include_unchanged {
                    let t = a.text_chars(show);
                    let ind = indent_chars(t.as_slice(), 2, " ");
                    push_all(&mut out, ind.as_slice());
                    push_str(&mut out, "\n");
                } else {
                    assert(out@ =~= before + seq![]);
                }
            },
            Diff::Different(o, n) => {
                let t = o.text_chars(show);
                push_colored(&mut out, t.as_slice(), "-", true);
                let u = n.text_chars(show);
                push_colored(&mut out, u.as_slice(), "+", false);
            },
            Diff::NewOnly(a) => {
                let t = a.text_chars(show);
                push_colored(&mut out, t.as_slice(), "+", false);
            },
        }
        proof {
            let s = dv.take(i + 1);
            assert(s.drop_last() =~= dv.take(i as int));
            assert(s.last() == d);
            assert(out@ =~= before + diff_text(d, include_unchanged, spec_text));
        }
        i = i + 1;
    }
    assert(dv.take(i as int) =~= dv);
    out
}

/// Appends `text` with a prefix, in red or green, and a line break.
fn push_colored(out: &mut Vec<char>, text: &[char], prefix: &str, is_red: bool)
    ensures
        final(out)@ == old(out)@ + if is_red {
            red_text(indented_all(text@, 2, prefix@))
        } else {
            green_text(indented_all(text@, 2, prefix@))
        } + "\n"@,
{
    let ind = indent_chars(text, 2, prefix);
    let s = string_of(ind.as_slice());
    let c = if is_red {
        red(s.as_str())
    } else {
        green(s.as_str())
    };
    push_str(out, c.as_str());
    push_str(out, "\n");
}

fn param_chars<G: Fn(&String) -> String>(x: &Param, show: &G) -> (r: Vec<char>)
    requires
        shows_well(*show),
    ensures
        r@ == param_text(*show, x@),
{
    let mut out: Vec<char> = Vec::new();
    push_param(&mut out, x, show);
    out
}

fn render_param_diffs<G: Fn(&String) -> String>(
    diffs: &Vec<Diff<Param>>,
    include_unchanged: bool,
    show: &G,
) -> (r: Vec<char>)
    requires
        shows_well(*show),
    ensures
        r@ == diffs_text(param_diffs_view(diffs@), include_unchanged, |x: ParamModel| param_text(*show, x)),
{
    let r = render_diffs(diffs, include_unchanged, show);
    assert(param_diffs_view(diffs@) =~= diffs@.map_values(|d: Diff<Param>| d@));
    assert((|x: ParamModel| <Param as Printable<G>>::text_spec(*show, x)) =~= (|x: ParamModel| param_text(*show, x)));
    r
}

/// Sorts the diffs by name, and writes them (see `diff_text`).
pub fn print_params_diff<G: Fn(&String) -> String>(
    diffs: &mut Vec<Diff<Param>>,
    include_unchanged: bool,
    show: &G,
) -> (r: String)
    requires
        shows_well(*show),
    ensures
        param_diffs_view(final(diffs)@) == sort_by(param_diffs_view(old(diffs)@), |a: Diff<ParamModel>, b: Diff<ParamModel>| param_diff_lt(a, b)),
        r@ == diffs_text(param_diffs_view(final(diffs)@), include_unchanged, |x: ParamModel| param_text(*show, x)),
{
    let mut taken = Vec::new();
    std::mem::swap(&mut taken, diffs);
    let sorted = sort_param_diffs(taken);
    *diffs = sorted;
    let out = render_param_diffs(diffs, include_unchanged, show);
    string_of(out.as_slice())
}

/// The parameters section: its heading, the diffs sorted and written, and their summary.
pub open spec fn params_section<G: Fn(&String) -> String>(
    ds: Seq<Diff<ParamModel>>,
    include_unchanged: bool,
    show: G,
) -> Seq<char> {
    let sorted = sort_by(ds, |a: Diff<ParamModel>, b: Diff<ParamModel>| param_diff_lt(a, b));
    "========== PARAMETERS ==========\n"@ + diffs_text(sorted, include_unchanged, |x: ParamModel| param_text(show, x)) + "\n"@
        + summary_text(sorted) + "\n"@
}

/// Writes the parameters section (see `params_section`), leaving the diffs sorted.
pub fn print_params<G: Fn(&String) -> String>(
    diffs: &mut Vec<Diff<Param>>,
    include_unchanged: bool,
    show: &G,
) -> (r: String)
    requires
        shows_well(*show),
    ensures
        param_diffs_view(final(diffs)@) == sort_by(param_diffs_view(old(diffs)@), |a: Diff<ParamModel>, b: Diff<ParamModel>| param_diff_lt(a, b)),
        r@ == params_section(param_diffs_view(old(diffs)@), include_unchanged, *show),
{
    let mut out: Vec<char> = Vec::new();
    push_str(&mut out, "========== PARAMETERS ==========\n");
    let d = print_params_diff(diffs, include_unchanged, show);
    push_str(&mut out, d.as_str());
    push_str(&mut out, "\n");
    let s = print_diff_summary(diffs.as_slice());
    proof {
        lemma_counts_view(diffs@);
        assert(param_diffs_view(diffs@) == diffs@.map_values(|d: Diff<_>| d@));
    }
    push_str(&mut out, s.as_str());
    push_str(&mut out, "\n");
    string_of(out.as_slice())
}

fn test_chars<G: Fn(&String) -> String>(x: &Test, show: &G) -> (r: Vec<char>)
    requires
        shows_well(*show),
    ensures
        r@ == test_text(*show, x@),
{
    let mut out: Vec<char> = Vec::new();
    push_test(&mut out, x, show);
    out
}

fn render_test_diffs<G: Fn(&String) -> String>(
    diffs: &Vec<Diff<Test>>,
    include_unchanged: bool,
    show: &G,
) -> (r: Vec<char>)
    requires
        shows_well(*show),
    ensures
        r@ == diffs_text(test_diffs_view(diffs@), include_unchanged, |x: TestModel| test_text(*show, x)),
{
    let r = render_diffs(diffs, include_unchanged, show);
    assert(test_diffs_view(diffs@) =~= diffs@.map_values(|d: Diff<Test>| d@));
    assert((|x: TestModel| <Test as Printable<G>>::text_spec(*show, x)) =~= (|x: TestModel| test_text(*show, x)));
    r
}

/// Sorts the diffs by model, then expression, and writes them (see `diff_text`).
pub fn print_tests_diff<G: Fn(&String) -> String>(
    diffs: &mut Vec<Diff<Test>>,
    include_unchanged: bool,
    show: &G,
) -> (r: String)
    requires
        shows_well(*show),
    ensures
        test_diffs_view(final(diffs)@) == sort_by(test_diffs_view(old(diffs)@), |a: Diff<TestModel>, b: Diff<TestModel>| test_diff_lt(a, b)),
        r@ == diffs_text(test_diffs_view(final(diffs)@), include_unchanged, |x: TestModel| test_text(*show, x)),
{
    let mut taken = Vec::new();
    std::mem::swap(&mut taken, diffs);
    let sorted = sort_test_diffs(taken);
    *diffs = sorted;
    let out = render_test_diffs(diffs, include_unchanged, show);
    string_of(out.as_slice())
}

/// The tests section: its heading, the diffs sorted and written, and their summary.
pub open spec fn tests_section<G: Fn(&String) -> String>(
    ds: Seq<Diff<TestModel>>,
    include_unchanged: bool,
    show: G,
) -> Seq<char> {
    let sorted = sort_by(ds, |a: Diff<TestModel>, b: Diff<TestModel>| test_diff_lt(a, b));
    "========== TESTS ==========\n"@ + diffs_text(sorted, include_unchanged, |x: TestModel| test_text(show, x)) + "\n"@
        + summary_text(sorted)
}

/// Writes the tests section (see `tests_section`), leaving the diffs sorted.
pub fn print_tests<G: Fn(&String) -> String>(
    diffs: &mut Vec<Diff<Test>>,
    include_unchanged: bool,
    show: &G,
) -> (r: String)
    requires
        shows_well(*show),
    ensures
        test_diffs_view(final(diffs)@) == sort_by(test_diffs_view(old(diffs)@), |a: Diff<TestModel>, b: Diff<TestModel>| test_diff_lt(a, b)),
        r@ == tests_section(test_diffs_view(old(diffs)@), include_unchanged, *show),
{
    let mut out: Vec<char> = Vec::new();
    push_str(&mut out, "========== TESTS ==========\n");
    let d = print_tests_diff(diffs, include_unchanged, show);
    push_str(&mut out, d.as_str());
    push_str(&mut out, "\n");
    let s = print_diff_summary(diffs.as_slice());
    proof {
        lemma_counts_view(diffs@);
        assert(test_diffs_view(diffs@) == diffs@.map_values(|d: Diff<_>| d@));
    }
    push_str(&mut out, s.as_str());
    string_of(out.as_slice())
}

} // verus!
