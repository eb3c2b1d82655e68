//! What holds of every comparison and of the two output formats: ignored keys are never
//! reported, every field of a parameter or test counts, a run compared with itself shows no
//! change, the summary counts what the diffs report in any order and writes the counts in
//! decimal, an old expression loses every `par_`, and parameter and dependency lines are
//! read part by part, or read back as written.
use vstd::prelude::*;
use crate::diff::{
    dep_names, deps_close, first_of, forced_same, lookup_dep, lookup_param,
    lookup_test, param_diff, param_names, results_same, test_diff, test_exprs, values_close,
    Diff,
};
use crate::keys::{last_index, lemma_last_index};
use crate::parse::{ParamModel, ResultModel, TestModel, ValueModel};
use crate::diff::judged_close;
use crate::parse::{old_param, until_nonempty, value_of, DepModel};
use crate::number::{eq_ignore_case, is_number, mantissa_len, normalize, number_text, same_letter, unsigned_part};
use crate::print::{param_text, unit_text, value_text};
use crate::parse::new_param;
use crate::text::{replace, trim_end, trim_start};
use crate::text::{
    contains, find, is_ws, lemma_find_char, lemma_find_from, lemma_find_from_at, lemma_trim_trailing_space,
    matches_at, skip_blanks, strip_prefix, trim,
};
use crate::print::{summary_text, 
    count_added, count_changed, count_removed, dep_lt, law_sort_by, param_diff_lt, sort_by,
    sorted_by, test_diff_lt, weak_order,
};
use crate::text::{lemma_lex_asymmetric, lemma_lex_irreflexive, lemma_lex_total, lemma_lex_transitive, lex_lt};

verus! {

/// A value that `close` finds the same as itself (every value but a number that is
/// close to nothing, such as `NaN`).
pub open spec fn self_close<F: Fn(&String, &String) -> bool>(close: F, v: ValueModel) -> bool {
    values_close(close, v, v)
}

/// Every failed test's dependencies hold values that are the same as themselves.
pub open spec fn tests_self_close<F: Fn(&String, &String) -> bool>(
    close: F,
    ts: Seq<TestModel>,
) -> bool {
    forall|i: int| #![trigger ts[i]]
        0 <= i < ts.len() ==> match ts[i].result {
            ResultModel::Fail(ds) => forall|j: int|
                0 <= j < ds.len() ==> self_close(close, #[trigger] ds[j].value),
            ResultModel::Pass => true,
        }
}

/// A parameter whose name is ignored is reported unchanged, whatever the two runs hold.
pub proof fn law_ignored_param_is_same<F: Fn(&String, &String) -> bool>(
    close: F,
    old: Seq<ParamModel>,
    new: Seq<ParamModel>,
    ignore: Seq<Seq<char>>,
    n: Seq<char>,
)
    requires
        ignore.contains(n),
        param_names(old).contains(n) || param_names(new).contains(n),
    ensures
        param_diff(close, old, new, ignore, n) matches Some(d) && d is Same,
{
    lemma_last_index(param_names(old), n);
    lemma_last_index(param_names(new), n);
}

/// A test whose expression is ignored is reported unchanged, whatever the two runs hold.
pub proof fn law_ignored_test_is_same<F: Fn(&String, &String) -> bool>(
    close: F,
    old: Seq<TestModel>,
    new: Seq<TestModel>,
    ignore: Seq<Seq<char>>,
    n: Seq<char>,
)
    requires
        ignore.contains(n),
        test_exprs(old).contains(n) || test_exprs(new).contains(n),
    ensures
        test_diff(close, old, new, ignore, n) matches Some(d) && d is Same,
{
    lemma_last_index(test_exprs(old), n);
    lemma_last_index(test_exprs(new), n);
}

/// Comparing parameters with themselves reports every name unchanged, where each value
/// is the same as itself.
pub proof fn law_params_against_themselves<F: Fn(&String, &String) -> bool>(
    close: F,
    ps: Seq<ParamModel>,
    ignore: Seq<Seq<char>>,
    n: Seq<char>,
)
    requires
        forall|i: int| 0 <= i < ps.len() ==> self_close(close, #[trigger] ps[i].value),
        param_names(ps).contains(n),
    ensures
        param_diff(close, ps, ps, ignore, n) == Some(Diff::Same(lookup_param(ps, n)->0)),
{
    lemma_last_index(param_names(ps), n);
    let i = last_index(param_names(ps), n)->0;
    assert(self_close(close, ps[i].value));
}

/// Every dependency that a failure lists is close to itself, so the failure is the same
/// as itself.
proof fn lemma_deps_against_themselves<F: Fn(&String, &String) -> bool>(
    close: F,
    ds: Seq<crate::parse::DepModel>,
)
    requires
        forall|j: int| 0 <= j < ds.len() ==> self_close(close, #[trigger] ds[j].value),
    ensures
        deps_close(close, ds, ds),
{
    assert forall|n: Seq<char>| #[trigger] dep_names(ds).contains(n) implies match (
        lookup_dep(ds, n),
        lookup_dep(ds, n),
    ) {
        (Some(o), Some(m)) => o.unit == m.unit && values_close(close, o.value, m.value),
        _ => false,
    } by {
        lemma_last_index(dep_names(ds), n);
        let i = last_index(dep_names(ds), n)->0;
        assert(self_close(close, ds[i].value));
    }
}

/// Comparing tests with themselves reports every expression unchanged, where each value
/// that a failure lists is the same as itself.
pub proof fn law_tests_against_themselves<F: Fn(&String, &String) -> bool>(
    close: F,
    ts: Seq<TestModel>,
    ignore: Seq<Seq<char>>,
    n: Seq<char>,
)
    requires
        tests_self_close(close, ts),
        test_exprs(ts).contains(n),
    ensures
        test_diff(close, ts, ts, ignore, n) == Some(Diff::Same(lookup_test(ts, n)->0)),
{
    lemma_last_index(test_exprs(ts), n);
    let i = last_index(test_exprs(ts), n)->0;
    assert(tests_self_close(close, ts));
    match ts[i].result {
        ResultModel::Fail(ds) => {
            lemma_deps_against_themselves(close, ds);
        },
        ResultModel::Pass => {},
    }
    assert(results_same(close, ts[i].result, ts[i].result));
}

/// Diffs that all report no change count nothing added, removed or changed.
pub proof fn law_unchanged_summary<T>(ds: Seq<Diff<T>>)
    requires
        forall|i: int| 0 <= i < ds.len() ==> #[trigger] ds[i] is Same,
    ensures
        count_added(ds) == 0,
        count_removed(ds) == 0,
        count_changed(ds) == 0,
    decreases ds.len(),
{
    if ds.len() > 0 {
        assert(ds[ds.len() - 1] is Same);
        law_unchanged_summary(ds.drop_last());
    }
}

/// Swapping the runs swaps what only one of them has: a parameter only in the old run of
/// one comparison is only in the new run of the other (for names not ignored).
pub proof fn law_swapped_params<F: Fn(&String, &String) -> bool>(
    close: F,
    old: Seq<ParamModel>,
    new: Seq<ParamModel>,
    ignore: Seq<Seq<char>>,
    n: Seq<char>,
)
    requires
        !ignore.contains(n),
    ensures
        (param_diff(close, old, new, ignore, n) matches Some(d) && d is OldOnly) <==> (param_diff(
            close,
            new,
            old,
            ignore,
            n,
        ) matches Some(e) && e is NewOnly),
{
}

/// Reporting a diff unchanged twice is reporting it unchanged once, and an unchanged diff
/// stays as it is.
pub proof fn law_force_same<T>(d: Diff<T>)
    ensures
        forced_same(forced_same(d)) == forced_same(d),
        forced_same(d) is Same,
        d is Same ==> forced_same(d) == d,
{
}

/// What does not come after `b`, and what `b` does not come after, are not out of order.
proof fn lemma_lex_weak(a: Seq<char>, b: Seq<char>, c: Seq<char>)
    requires
        !lex_lt(a, b),
        !lex_lt(b, c),
    ensures
        !lex_lt(a, c),
{
    lemma_lex_total(a, b);
    lemma_lex_total(b, c);
    if lex_lt(a, c) {
        if lex_lt(b, a) && lex_lt(c, b) {
            lemma_lex_transitive(c, b, a);
            lemma_lex_asymmetric(a, c);
        } else if lex_lt(b, a) {
            lemma_lex_asymmetric(a, c);
        } else if lex_lt(c, b) {
            lemma_lex_asymmetric(a, c);
        } else {
            lemma_lex_irreflexive(a);
        }
    }
}

/// Two texts in order by the first, then the second.
pub open spec fn pair_lt(a1: Seq<char>, a2: Seq<char>, b1: Seq<char>, b2: Seq<char>) -> bool {
    lex_lt(a1, b1) || (a1 == b1 && lex_lt(a2, b2))
}

proof fn lemma_pair_total(a1: Seq<char>, a2: Seq<char>, b1: Seq<char>, b2: Seq<char>)
    ensures
        (a1 == b1 && a2 == b2) || pair_lt(a1, a2, b1, b2) || pair_lt(b1, b2, a1, a2),
{
    lemma_lex_total(a1, b1);
    lemma_lex_total(a2, b2);
}

proof fn lemma_pair_asymmetric(a1: Seq<char>, a2: Seq<char>, b1: Seq<char>, b2: Seq<char>)
    requires
        pair_lt(a1, a2, b1, b2),
    ensures
        !pair_lt(b1, b2, a1, a2),
{
    if lex_lt(a1, b1) {
        lemma_lex_asymmetric(a1, b1);
        if b1 == a1 {
            lemma_lex_irreflexive(a1);
        }
    } else {
        lemma_lex_asymmetric(a2, b2);
        lemma_lex_irreflexive(a1);
    }
}

proof fn lemma_pair_transitive(
    a1: Seq<char>,
    a2: Seq<char>,
    b1: Seq<char>,
    b2: Seq<char>,
    c1: Seq<char>,
    c2: Seq<char>,
)
    requires
        pair_lt(a1, a2, b1, b2),
        pair_lt(b1, b2, c1, c2),
    ensures
        pair_lt(a1, a2, c1, c2),
{
    if lex_lt(a1, b1) && lex_lt(b1, c1) {
        lemma_lex_transitive(a1, b1, c1);
    } else if a1 == b1 && b1 == c1 {
        lemma_lex_transitive(a2, b2, c2);
    }
}

proof fn lemma_pair_weak(
    a1: Seq<char>,
    a2: Seq<char>,
    b1: Seq<char>,
    b2: Seq<char>,
    c1: Seq<char>,
    c2: Seq<char>,
)
    requires
        !pair_lt(a1, a2, b1, b2),
        !pair_lt(b1, b2, c1, c2),
    ensures
        !pair_lt(a1, a2, c1, c2),
{
    lemma_pair_total(a1, a2, b1, b2);
    lemma_pair_total(b1, b2, c1, c2);
    if pair_lt(a1, a2, c1, c2) {
        if pair_lt(b1, b2, a1, a2) && pair_lt(c1, c2, b1, b2) {
            lemma_pair_transitive(c1, c2, b1, b2, a1, a2);
            lemma_pair_asymmetric(a1, a2, c1, c2);
        } else if pair_lt(b1, b2, a1, a2) {
            lemma_pair_asymmetric(a1, a2, c1, c2);
        } else if pair_lt(c1, c2, b1, b2) {
            lemma_pair_asymmetric(a1, a2, c1, c2);
        } else {
            lemma_pair_asymmetric(a1, a2, a1, a2);
        }
    }
}

/// Writing the parameters sorts their diffs by name: the same diffs, none after one with a
/// later name.
pub proof fn law_params_written_sorted(ds: Seq<Diff<ParamModel>>)
    ensures
        sorted_by(
            sort_by(ds, |a: Diff<ParamModel>, b: Diff<ParamModel>| param_diff_lt(a, b)),
            |a: Diff<ParamModel>, b: Diff<ParamModel>| param_diff_lt(a, b),
        ),
        sort_by(ds, |a: Diff<ParamModel>, b: Diff<ParamModel>| param_diff_lt(a, b)).to_multiset()
            == ds.to_multiset(),
{
    let lt = |a: Diff<ParamModel>, b: Diff<ParamModel>| param_diff_lt(a, b);
    assert forall|a: Diff<ParamModel>, b: Diff<ParamModel>| #[trigger] lt(a, b) implies !lt(b, a) by {
        lemma_lex_asymmetric(first_of(a).name, first_of(b).name);
    }
    assert forall|a: Diff<ParamModel>, b: Diff<ParamModel>, c: Diff<ParamModel>|
        #![trigger lt(a, b), lt(b, c)]
        !lt(a, b) && !lt(b, c) implies !lt(a, c) by {
        lemma_lex_weak(first_of(a).name, first_of(b).name, first_of(c).name);
    }
    assert(weak_order(lt));
    law_sort_by(ds, lt);
}

/// Writing the tests sorts their diffs by model, then expression: the same diffs, none
/// after one that comes later.
pub proof fn law_tests_written_sorted(ds: Seq<Diff<TestModel>>)
    ensures
        sorted_by(
            sort_by(ds, |a: Diff<TestModel>, b: Diff<TestModel>| test_diff_lt(a, b)),
            |a: Diff<TestModel>, b: Diff<TestModel>| test_diff_lt(a, b),
        ),
        sort_by(ds, |a: Diff<TestModel>, b: Diff<TestModel>| test_diff_lt(a, b)).to_multiset()
            == ds.to_multiset(),
{
    let lt = |a: Diff<TestModel>, b: Diff<TestModel>| test_diff_lt(a, b);
    assert forall|a: Diff<TestModel>, b: Diff<TestModel>| #[trigger] lt(a, b) implies !lt(b, a) by {
        lemma_pair_asymmetric(
            first_of(a).model,
            first_of(a).expression,
            first_of(b).model,
            first_of(b).expression,
        );
    }
    assert forall|a: Diff<TestModel>, b: Diff<TestModel>, c: Diff<TestModel>|
        #![trigger lt(a, b), lt(b, c)]
        !lt(a, b) && !lt(b, c) implies !lt(a, c) by {
        lemma_pair_weak(
            first_of(a).model,
            first_of(a).expression,
            first_of(b).model,
            first_of(b).expression,
            first_of(c).model,
            first_of(c).expression,
        );
    }
    assert(weak_order(lt));
    law_sort_by(ds, lt);
}

/// The dependencies of a failed test are written sorted by name: the same dependencies,
/// none after one with a later name.
pub proof fn law_deps_written_sorted(ds: Seq<crate::parse::DepModel>)
    ensures
        sorted_by(
            sort_by(ds, |a: crate::parse::DepModel, b: crate::parse::DepModel| dep_lt(a, b)),
            |a: crate::parse::DepModel, b: crate::parse::DepModel| dep_lt(a, b),
        ),
        sort_by(ds, |a: crate::parse::DepModel, b: crate::parse::DepModel| dep_lt(a, b)).to_multiset()
            == ds.to_multiset(),
{
    let lt = |a: crate::parse::DepModel, b: crate::parse::DepModel| dep_lt(a, b);
    assert forall|a: crate::parse::DepModel, b: crate::parse::DepModel| #[trigger] lt(a, b) implies !lt(
        b,
        a,
    ) by {
        lemma_lex_asymmetric(a.name, b.name);
    }
    assert forall|a: crate::parse::DepModel, b: crate::parse::DepModel, c: crate::parse::DepModel|
        #![trigger lt(a, b), lt(b, c)]
        !lt(a, b) && !lt(b, c) implies !lt(a, c) by {
        lemma_lex_weak(a.name, b.name, c.name);
    }
    assert(weak_order(lt));
    law_sort_by(ds, lt);
}

/// `close` answers the same whichever number it is asked about first.
pub open spec fn close_symmetric<F: Fn(&String, &String) -> bool>(close: F) -> bool {
    forall|x: Seq<char>, y: Seq<char>| #[trigger]
        judged_close(close, x, y) == judged_close(close, y, x)
}

/// Comparing two values is symmetric where comparing two numbers is.
pub proof fn law_values_close_symmetric<F: Fn(&String, &String) -> bool>(
    close: F,
    a: ValueModel,
    b: ValueModel,
)
    requires
        close_symmetric(close),
    ensures
        values_close(close, a, b) == values_close(close, b, a),
{
    match (a, b) {
        (ValueModel::Scalar(x), ValueModel::Scalar(y)) => {
            assert(judged_close(close, x, y) == judged_close(close, y, x));
        },
        (
            ValueModel::Interval { min: a_min, max: a_max },
            ValueModel::Interval { min: b_min, max: b_max },
        ) => {
            assert(judged_close(close, a_min, b_min) == judged_close(close, b_min, a_min));
            assert(judged_close(close, a_max, b_max) == judged_close(close, b_max, a_max));
        },
        _ => {},
    }
}

/// No two dependencies share a name.
pub open spec fn distinct_names(ds: Seq<DepModel>) -> bool {
    forall|i: int, j: int| 0 <= i < j < ds.len() ==> #[trigger] ds[i].name != #[trigger] ds[j].name
}

/// With distinct names, the dependency with a name is the one found by it.
proof fn lemma_lookup_distinct(ds: Seq<DepModel>, j: int)
    requires
        distinct_names(ds),
        0 <= j < ds.len(),
    ensures
        lookup_dep(ds, ds[j].name) == Some(ds[j]),
{
    lemma_last_index(dep_names(ds), ds[j].name);
    assert(dep_names(ds)[j] == ds[j].name);
    let k = last_index(dep_names(ds), ds[j].name)->0;
    assert(ds[k].name == dep_names(ds)[k]);
    if k < j {
        assert(dep_names(ds)[j] == ds[j].name);
    } else if j < k {
        assert(ds[j].name != ds[k].name);
    }
}

/// Where the names of each side are distinct, the dependencies of two failures are close
/// exactly when there are as many of each and every old one has a new one with its name,
/// its unit and a close value: the order of either side does not matter.
pub proof fn law_deps_close_distinct<F: Fn(&String, &String) -> bool>(
    close: F,
    old: Seq<DepModel>,
    new: Seq<DepModel>,
)
    requires
        distinct_names(old),
        distinct_names(new),
    ensures
        deps_close(close, old, new) == (old.len() == new.len() && forall|i: int|
            0 <= i < old.len() ==> exists|j: int|
                0 <= j < new.len() && #[trigger] new[j].name == #[trigger] old[i].name
                    && new[j].unit == old[i].unit && values_close(
                    close,
                    old[i].value,
                    new[j].value,
                )),
{
    let rhs = old.len() == new.len() && forall|i: int|
        0 <= i < old.len() ==> exists|j: int|
            0 <= j < new.len() && #[trigger] new[j].name == #[trigger] old[i].name && new[j].unit
                == old[i].unit && values_close(close, old[i].value, new[j].value);
    if deps_close(close, old, new) {
        assert forall|i: int| 0 <= i < old.len() implies exists|j: int|
            0 <= j < new.len() && #[trigger] new[j].name == #[trigger] old[i].name && new[j].unit
                == old[i].unit && values_close(close, old[i].value, new[j].value) by {
            let n = old[i].name;
            assert(dep_names(old)[i] == n);
            assert(dep_names(old).contains(n));
            lemma_lookup_distinct(old, i);
            lemma_last_index(dep_names(new), n);
            let k = last_index(dep_names(new), n)->0;
            assert(new[k].name == dep_names(new)[k]);
        }
    }
    if rhs {
        assert forall|n: Seq<char>| #[trigger] dep_names(old).contains(n) implies match (
            lookup_dep(old, n),
            lookup_dep(new, n),
        ) {
            (Some(o), Some(m)) => o.unit == m.unit && values_close(close, o.value, m.value),
            _ => false,
        } by {
            let i = choose|i: int| 0 <= i < dep_names(old).len() && dep_names(old)[i] == n;
            assert(old[i].name == n);
            lemma_lookup_distinct(old, i);
            let j = choose|j: int|
                0 <= j < new.len() && #[trigger] new[j].name == #[trigger] old[i].name
                    && new[j].unit == old[i].unit && values_close(close, old[i].value, new[j].value);
            lemma_lookup_distinct(new, j);
        }
    }
}

/// One diff removed from anywhere takes its own kind off the counts.
proof fn lemma_counts_remove<T>(s: Seq<Diff<T>>, i: int)
    requires
        0 <= i < s.len(),
    ensures
        count_added(s) == count_added(s.remove(i)) + if s[i] is NewOnly {
            1nat
        } else {
            0nat
        },
        count_removed(s) == count_removed(s.remove(i)) + if s[i] is OldOnly {
            1nat
        } else {
            0nat
        },
        count_changed(s) == count_changed(s.remove(i)) + if s[i] is Different {
            1nat
        } else {
            0nat
        },
    decreases s.len(),
{
    if i == s.len() - 1 {
        assert(s.remove(i) =~= s.drop_last());
    } else {
        lemma_counts_remove(s.drop_last(), i);
        assert(s.remove(i).drop_last() =~= s.drop_last().remove(i));
        assert(s.remove(i).last() == s.last());
    }
}

/// The summary line is the same for any order of the diffs.
pub proof fn law_summary_any_order<T>(a: Seq<Diff<T>>, b: Seq<Diff<T>>)
    requires
        a.to_multiset() == b.to_multiset(),
    ensures
        summary_text(a) == summary_text(b),
    decreases a.len(),
{
    lemma_counts_same(a, b);
}

proof fn lemma_counts_same<T>(a: Seq<Diff<T>>, b: Seq<Diff<T>>)
    requires
        a.to_multiset() == b.to_multiset(),
    ensures
        count_added(a) == count_added(b),
        count_removed(a) == count_removed(b),
        count_changed(a) == count_changed(b),
    decreases a.len(),
{
    broadcast use vstd::multiset::group_multiset_axioms;
    broadcast use vstd::seq_lib::to_multiset_build, vstd::seq_lib::to_multiset_remove, vstd::seq_lib::to_multiset_len, vstd::seq_lib::to_multiset_contains;

    if a.len() == 0 {
        assert(b.to_multiset().len() == 0);
        assert(b.len() == 0);
    } else {
        let x = a.last();
        assert(a =~= a.drop_last().push(x));
        assert(a.to_multiset().contains(x));
        assert(b.contains(x));
        let j = choose|j: int| 0 <= j < b.len() && b[j] == x;
        let b2 = b.remove(j);
        assert(b2.to_multiset() =~= a.drop_last().to_multiset());
        lemma_counts_same(a.drop_last(), b2);
        lemma_counts_remove(b, j);
    }
}

/// Adding an unchanged diff anywhere leaves the summary line as it is (and so does
/// taking one away).
pub proof fn law_summary_ignores_unchanged<T>(a: Seq<Diff<T>>, i: int, x: T)
    requires
        0 <= i <= a.len(),
    ensures
        summary_text(a.insert(i, Diff::Same(x))) == summary_text(a),
{
    lemma_counts_remove(a.insert(i, Diff::Same(x)), i);
    assert(a.insert(i, Diff::Same(x)).remove(i) =~= a);
}

/// The diffs that report a change of any kind: all but the unchanged ones, in order.
pub open spec fn reported<T>(ds: Seq<Diff<T>>) -> Seq<Diff<T>>
    decreases ds.len(),
{
    if ds.len() == 0 {
        ds
    } else if ds.last() is Same {
        reported(ds.drop_last())
    } else {
        reported(ds.drop_last()).push(ds.last())
    }
}

/// Leaving out the unchanged diffs changes none of the counts.
proof fn lemma_counts_reported<T>(ds: Seq<Diff<T>>)
    ensures
        count_added(reported(ds)) == count_added(ds),
        count_removed(reported(ds)) == count_removed(ds),
        count_changed(reported(ds)) == count_changed(ds),
    decreases ds.len(),
{
    if ds.len() > 0 {
        lemma_counts_reported(ds.drop_last());
        let sub = reported(ds.drop_last());
        if !(ds.last() is Same) {
            assert(sub.push(ds.last()).drop_last() =~= sub);
        }
    }
}

/// Two lists of diffs that report the same changes, in any order and with any number of
/// unchanged diffs among them, give the same summary line.
pub proof fn law_summary_same_changes<T>(a: Seq<Diff<T>>, b: Seq<Diff<T>>)
    requires
        reported(a).to_multiset() == reported(b).to_multiset(),
    ensures
        summary_text(a) == summary_text(b),
{
    lemma_counts_reported(a);
    lemma_counts_reported(b);
    lemma_counts_same(reported(a), reported(b));
}

/// A parameter line of the old output made of its parts:
/// `name: value unit -- "description"`.
pub open spec fn old_param_line_of(
    name: Seq<char>,
    value: Seq<char>,
    unit: Seq<char>,
    description: Seq<char>,
) -> Seq<char> {
    name + seq![':', ' '] + value + seq![' '] + unit + seq![' ', '-', '-', ' ', '"'] + description
        + seq!['"']
}

/// The unit part of an old parameter line: it ends before ` -- "`, which cannot begin
/// within it, and is not followed by a repetition marker.
proof fn lemma_old_unit_part(u: Seq<char>, v: Seq<char>, d: Seq<char>)
    requires
        u.len() >= 1 && u[0] != '|',
        !contains(u, seq!['-', '-', ' ', '"']),
    ensures
        ({
            let r2 = u + seq![' ', '-', '-', ' ', '"'] + d + seq!['"'];
            &&& strip_prefix(r2, seq!['|', ' '] + v) is None
            &&& until_nonempty(r2, seq!['-', '-', ' ', '"']) == Some(u.len() as int + 1)
            &&& r2.take(u.len() as int + 1) == u + seq![' ']
            &&& r2.skip(u.len() as int + 5) == d + seq!['"']
        }),
{
    let pat = seq!['-', '-', ' ', '"'];
    let r2 = u + seq![' ', '-', '-', ' ', '"'] + d + seq!['"'];
    let bar = seq!['|', ' '] + v;
    if bar.len() <= r2.len() {
        assert(r2.take(bar.len() as int)[0] != bar[0]);
    }
    let k: int = u.len() as int + 1;
    assert(r2.subrange(k, k + 4) =~= pat);
    lemma_find_from(u, pat, 0);
    assert forall|j: int| 0 <= j < k implies !matches_at(r2, pat, j) by {
        if j + 4 <= u.len() {
            assert(r2.subrange(j, j + 4) =~= u.subrange(j, j + 4));
            assert(!matches_at(u, pat, j));
        } else {
            assert(r2[j + 3] != '"');
            if matches_at(r2, pat, j) {
                assert(r2.subrange(j, j + 4)[3] == r2[j + 3]);
            }
        }
    }
    lemma_find_from_at(r2, pat, 0, k);
    assert(r2.take(k) =~= u + seq![' ']);
    assert(r2.skip(k + 4) =~= d + seq!['"']);
}

/// The description part: what stands before the closing quote.
proof fn lemma_old_description_part(d: Seq<char>)
    requires
        d.len() >= 1,
        !d.contains('"'),
    ensures
        until_nonempty(d + seq!['"'], seq!['"']) == Some(d.len() as int),
        (d + seq!['"']).take(d.len() as int) == d,
{
    let r4 = d + seq!['"'];
    assert forall|j: int| 0 <= j < d.len() implies r4[j] != '"' by {
        assert(r4[j] == d[j]);
    }
    lemma_find_char(r4, '"', d.len() as int);
    assert(r4.take(d.len() as int) =~= d);
}

/// The name and value parts: the name ends at the first `:`, the value after the blank
/// ends at the first space.
proof fn lemma_old_name_value_parts(n: Seq<char>, v: Seq<char>, r2: Seq<char>)
    requires
        n.len() >= 1,
        !n.contains(':'),
        v.len() >= 1,
        forall|i: int| 0 <= i < v.len() ==> !is_ws(#[trigger] v[i]),
    ensures
        ({
            let line = n + seq![':', ' '] + v + seq![' '] + r2;
            let r1 = v + seq![' '] + r2;
            &&& until_nonempty(line, seq![':']) == Some(n.len() as int)
            &&& line.take(n.len() as int) == n
            &&& skip_blanks(line.skip(n.len() as int + 1)) == r1
            &&& until_nonempty(r1, seq![' ']) == Some(v.len() as int)
            &&& r1.take(v.len() as int) == v
            &&& r1.skip(v.len() as int + 1) == r2
        }),
{
    let r1 = v + seq![' '] + r2;
    let line = n + seq![':', ' '] + v + seq![' '] + r2;
    assert(line =~= n + (seq![':', ' '] + r1));
    assert forall|j: int| 0 <= j < n.len() implies line[j] != ':' by {
        assert(line[j] == n[j]);
    }
    lemma_find_char(line, ':', n.len() as int);
    assert(line.take(n.len() as int) =~= n);
    let after = line.skip(n.len() as int + 1);
    assert(after =~= seq![' '] + r1);
    assert(after.drop_first() =~= r1);
    assert(r1[0] == v[0]);
    assert(!is_ws(v[0]));
    assert(skip_blanks(r1) == r1);
    assert(skip_blanks(after) == r1);
    assert forall|j: int| 0 <= j < v.len() implies r1[j] != ' ' by {
        assert(r1[j] == v[j]);
        assert(!is_ws(v[j]));
    }
    lemma_find_char(r1, ' ', v.len() as int);
    assert(r1.take(v.len() as int) =~= v);
    assert(r1.skip(v.len() as int + 1) =~= r2);
}

/// A line `name: value unit -- "description"` is read part by part: the name and the
/// description trimmed, the value as `value_of` reads it (the line is refused where that
/// refuses it), the unit trimmed. This holds where the name has no `:`, the value no
/// whitespace, the unit some text but neither a leading `|` nor `-- "`, the description no
/// `"`, and none of them is empty.
#[verifier::rlimit(40)]
pub proof fn law_old_param_parts(n: Seq<char>, v: Seq<char>, u: Seq<char>, d: Seq<char>)
    requires
        n.len() >= 1,
        !n.contains(':'),
        v.len() >= 1,
        forall|i: int| 0 <= i < v.len() ==> !is_ws(#[trigger] v[i]),
        trim(u).len() > 0,
        u.len() >= 1 && u[0] != '|',
        !contains(u, seq!['-', '-', ' ', '"']),
        d.len() >= 1,
        !d.contains('"'),
    ensures
        old_param(old_param_line_of(n, v, u, d)) == match value_of(v) {
            Ok(value) => Some(
                ParamModel { name: trim(n), value, unit: Some(trim(u)), description: trim(d) },
            ),
            Err(_) => None,
        },
{
    let r2 = u + seq![' ', '-', '-', ' ', '"'] + d + seq!['"'];
    let line = old_param_line_of(n, v, u, d);
    assert(line =~= n + seq![':', ' '] + v + seq![' '] + r2);
    lemma_old_name_value_parts(n, v, r2);
    lemma_old_unit_part(u, v, d);
    lemma_old_description_part(d);
    lemma_trim_trailing_space(u);
}


/// `(a + b)` holds `c` only where `a` or `b` does.
proof fn lemma_no_char_concat(a: Seq<char>, b: Seq<char>, c: char)
    requires
        !a.contains(c),
        !b.contains(c),
    ensures
        !(a + b).contains(c),
{
    if (a + b).contains(c) {
        let i = choose|i: int| 0 <= i < (a + b).len() && (a + b)[i] == c;
        if i < a.len() {
            assert(a[i] == c);
        } else {
            assert(b[i - a.len()] == c);
        }
    }
}

/// Where `c` does not occur, `find` gives nothing.
proof fn lemma_find_char_none(s: Seq<char>, c: char)
    requires
        !s.contains(c),
    ensures
        find(s, seq![c]) is None,
{
    assert forall|j: int| 0 <= j implies !matches_at(s, seq![c], j) by {
        if matches_at(s, seq![c], j) {
            assert(s.subrange(j, j + 1)[0] == s[j]);
            assert(s.contains(c));
        }
    }
    crate::text::lemma_find_from_none(s, seq![c], 0);
}

/// Trimming the end keeps a first character that is not whitespace.
proof fn lemma_trim_end_keeps_first(s: Seq<char>)
    requires
        s.len() > 0,
        !is_ws(s[0]),
    ensures
        trim_end(s).len() > 0,
        trim_end(s)[0] == s[0],
    decreases s.len(),
{
    if is_ws(s.last()) {
        assert(s.len() >= 2);
        assert(s.drop_last()[0] == s[0]);
        lemma_trim_end_keeps_first(s.drop_last());
    }
}

/// Trimming keeps a first character that is not whitespace.
proof fn lemma_trim_keeps_first(s: Seq<char>)
    requires
        s.len() > 0,
        !is_ws(s[0]),
    ensures
        trim(s).len() > 0,
        trim(s)[0] == s[0],
{
    assert(trim_start(s) == s);
    lemma_trim_end_keeps_first(s);
}

/// A text that neither starts nor ends with whitespace is its own trim.
proof fn lemma_trim_fixed(s: Seq<char>)
    requires
        s.len() > 0,
        !is_ws(s[0]),
        !is_ws(s.last()),
    ensures
        trim(s) == s,
{
    assert(trim_start(s) == s);
    assert(trim_end(s) == s);
}

/// A text that starts with a quote is no number.
proof fn lemma_quoted_not_number(t: Seq<char>)
    requires
        t.len() > 0,
        t[0] == '\'',
    ensures
        number_text(t) is None,
{
    lemma_trim_keeps_first(t);
    let a = trim(t);
    let z = normalize(a);
    if contains(a, seq!['e']) && !contains(a, seq!['.']) {
        lemma_find_from(a, seq!['e'], 0);
        let k = find(a, seq!['e'])->0;
        assert(a.subrange(k, k + 1)[0] == a[k]);
        assert(k != 0);
        assert(z[0] == a[0]);
    }
    assert(z.len() > 0 && z[0] == '\'');
    lemma_trim_keeps_first(z);
    let n = trim(z);
    assert(unsigned_part(n) == n);
    assert(!eq_ignore_case(n, seq!['i', 'n', 'f'])) by {
        assert(seq!['i', 'n', 'f'][0] == 'i');
        assert(!same_letter(n[0], 'i'));
    }
    assert(!eq_ignore_case(n, seq!['i', 'n', 'f', 'i', 'n', 'i', 't', 'y'])) by {
        assert(seq!['i', 'n', 'f', 'i', 'n', 'i', 't', 'y'][0] == 'i');
        assert(!same_letter(n[0], 'i'));
    }
    assert(!eq_ignore_case(n, seq!['n', 'a', 'n'])) by {
        assert(seq!['n', 'a', 'n'][0] == 'n');
        assert(!same_letter(n[0], 'n'));
    }
    assert(mantissa_len(n) == 0);
    assert(n.take(0) =~= Seq::<char>::empty());
    assert(find(Seq::<char>::empty(), seq!['.']) is None);
    assert(!is_number(n));
}

/// A quoted text without quotes inside reads back as that text.
proof fn lemma_unquote_quoted(s: Seq<char>)
    requires
        !s.contains('\''),
    ensures
        replace(seq!['\''] + s + seq!['\''], seq!['\''], seq![]) == s,
{
    let q = seq!['\''];
    let t = q + s + q;
    lemma_find_char(t, '\'', 0);
    let rest = t.skip(1);
    assert(rest =~= s + q);
    assert forall|j: int| 0 <= j < s.len() implies rest[j] != '\'' by {
        assert(rest[j] == s[j]);
        if s[j] == '\'' {
            assert(s.contains('\''));
        }
    }
    lemma_find_char(rest, '\'', s.len() as int);
    let e = rest.skip(s.len() as int + 1);
    assert(e =~= Seq::<char>::empty());
    assert(find(e, q) is None);
    assert(replace(e, q, seq![]) == e);
    assert(rest.take(s.len() as int) =~= s);
    assert(replace(rest, q, seq![]) =~= s);
    assert(t.take(0) + seq![] + replace(rest, q, seq![]) =~= s);
}

/// The values that are written without `show`, and the characters they must not hold to
/// be read back: a string without quotes, `|`, `:` or `#`, or the empty interval.
pub open spec fn reads_back_value(v: ValueModel) -> bool {
    match v {
        ValueModel::Str(s) => !s.contains('\'') && !s.contains('|') && !s.contains(':')
            && !s.contains('#'),
        ValueModel::EmptyInterval => true,
        _ => false,
    }
}

/// The value part of a written parameter: it starts with `'` or `<`, ends with neither
/// whitespace nor `#` nor `:` inside, and reads back as the value.
proof fn lemma_value_part<G: Fn(&String) -> String>(show: G, value: ValueModel)
    requires
        reads_back_value(value),
    ensures
        ({
            let v = value_text(show, value);
            &&& v.len() > 0
            &&& v[0] == '\'' || v[0] == '<'
            &&& !is_ws(v.last())
            &&& !v.contains('#')
            &&& !v.contains(':')
            &&& value_of(v) == Ok::<ValueModel, crate::parse::ErrorModel>(value)
        }),
{
    reveal_strlit("'");
    reveal_strlit("<empty>");
    let v = value_text(show, value);
    match value {
        ValueModel::Str(s) => {
            let q = seq!['\''];
            assert(v =~= q + s + q);
            assert(!q.contains('#') && !q.contains(':') && !q.contains('|'));
            lemma_no_char_concat(q, s, '#');
            lemma_no_char_concat(q + s, q, '#');
            lemma_no_char_concat(q, s, ':');
            lemma_no_char_concat(q + s, q, ':');
            lemma_no_char_concat(q, s, '|');
            lemma_no_char_concat(q + s, q, '|');
            lemma_trim_fixed(v);
            assert(v != seq!['<', 'e', 'm', 'p', 't', 'y', '>']);
            lemma_find_char_none(v, '|');
            lemma_quoted_not_number(v);
            lemma_unquote_quoted(s);
        },
        ValueModel::EmptyInterval => {
            assert(v =~= seq!['<', 'e', 'm', 'p', 't', 'y', '>']);
            lemma_trim_fixed(v);
            assert(!v.contains('#')) by {
                if v.contains('#') {
                    let i = choose|i: int| 0 <= i < v.len() && v[i] == '#';
                }
            }
            assert(!v.contains(':')) by {
                if v.contains(':') {
                    let i = choose|i: int| 0 <= i < v.len() && v[i] == ':';
                }
            }
        },
        _ => {},
    }
}


/// A text that is its own trim, and not empty, neither starts nor ends with whitespace.
proof fn lemma_trimmed_ends(x: Seq<char>)
    requires
        trim(x) == x,
        x.len() > 0,
    ensures
        !is_ws(x[0]),
        !is_ws(x.last()),
{
    crate::text::lemma_trim_start_shape(x);
    crate::text::lemma_trim_end_shape(trim_start(x));
    assert(x[0] == trim_start(x)[0]);
}

/// The units that are written so as to be read back: none, or a trimmed text without `#`.
pub open spec fn reads_back_unit(unit: Option<Seq<char>>) -> bool {
    match unit {
        Some(u) => trim(u) == u && !u.contains('#'),
        None => true,
    }
}

/// A value followed by its unit: trimmed already, without `#`, and split at the first `:`
/// into the value and the unit again.
proof fn lemma_unit_part(v: Seq<char>, unit: Option<Seq<char>>)
    requires
        v.len() > 0,
        !is_ws(v[0]),
        !is_ws(v.last()),
        !v.contains('#'),
        !v.contains(':'),
        reads_back_unit(unit),
    ensures
        ({
            let w = v + unit_text(unit);
            &&& w.len() > 0
            &&& w[0] == v[0]
            &&& trim(w) == w
            &&& !w.contains('#')
            &&& crate::parse::split_value_unit(w, seq![':']) == (v, unit)
        }),
{
    reveal_strlit(" :");
    lemma_trim_fixed(v);
    let w = v + unit_text(unit);
    match unit {
        None => {
            assert(w =~= v);
            lemma_find_char_none(v, ':');
        },
        Some(x) => {
            let c = seq![' ', ':'];
            assert(w =~= v + c + x);
            if x.len() > 0 {
                lemma_trimmed_ends(x);
                assert(w.last() == x.last());
            } else {
                assert(w.last() == ':');
            }
            lemma_trim_fixed(w);
            assert(!c.contains('#')) by {
                if c.contains('#') {
                    let i = choose|i: int| 0 <= i < c.len() && c[i] == '#';
                }
            }
            lemma_no_char_concat(v, c, '#');
            lemma_no_char_concat(v + c, x, '#');
            let k = v.len() as int + 1;
            assert forall|j: int| 0 <= j < k implies w[j] != ':' by {
                if j < v.len() {
                    assert(w[j] == v[j]);
                    if v[j] == ':' {
                        assert(v.contains(':'));
                    }
                }
            }
            lemma_find_char(w, ':', k);
            assert(w.take(k) =~= v + seq![' ']);
            assert(w.skip(k + 1) =~= x);
            lemma_trim_trailing_space(v);
        },
    }
}

/// A parameter as it is written in the new output is read back as itself, where its value
/// needs no `show` (a string or the empty interval) and nothing in it is lost or misread:
/// the name has no `=` and is trimmed, the string has no `'`, `|`, `:` or `#`, the unit is
/// trimmed and has no `#`, and the description is trimmed.
pub proof fn law_param_read_back<G: Fn(&String) -> String>(show: G, p: ParamModel)
    requires
        !p.name.contains('='),
        trim(p.name) == p.name,
        reads_back_value(p.value),
        reads_back_unit(p.unit),
        trim(p.description) == p.description,
    ensures
        new_param(param_text(show, p)) == Some(p),
{
    let n = p.name;
    let d = p.description;
    let v = value_text(show, p.value);
    lemma_value_part(show, p.value);
    assert(!is_ws(v[0]));
    lemma_unit_part(v, p.unit);
    let w = v + unit_text(p.unit);
    let line = param_text(show, p);
    assert(line =~= n + seq![' ', '=', ' '] + w + seq![' ', ' ', '#', ' '] + d) by {
        reveal_strlit(" = ");
        reveal_strlit("  # ");
    }
    let i = n.len() as int + 1;
    assert(until_nonempty(line, seq!['=']) == Some(i)) by {
        assert forall|j: int| 0 <= j < i implies line[j] != '=' by {
            if j < n.len() {
                assert(line[j] == n[j]);
                if n[j] == '=' {
                    assert(n.contains('='));
                }
            }
        }
        lemma_find_char(line, '=', i);
    }
    assert(trim(line.take(i)) == n) by {
        assert(line.take(i) =~= n + seq![' ']);
        if n.len() > 0 {
            lemma_trim_trailing_space(n);
        } else {
            assert(n + seq![' '] =~= seq![' ']);
            assert(seq![' '].drop_first() =~= Seq::<char>::empty());
            assert(trim_start(seq![' ']) == trim_start(seq![' '].drop_first()));
        }
    }
    let r1 = w + seq![' ', ' ', '#', ' '] + d;
    assert(skip_blanks(line.skip(i + 1)) == r1) by {
        let after = line.skip(i + 1);
        assert(after.drop_first() =~= r1);
        assert(skip_blanks(r1) == r1);
    }
    let k = w.len() as int + 2;
    assert(until_nonempty(r1, seq!['#']) == Some(k)) by {
        assert forall|j: int| 0 <= j < k implies r1[j] != '#' by {
            if j < w.len() {
                assert(r1[j] == w[j]);
                if w[j] == '#' {
                    assert(w.contains('#'));
                }
            }
        }
        lemma_find_char(r1, '#', k);
    }
    assert(trim(r1.take(k)) == w) by {
        assert(r1.take(k) =~= w + seq![' '] + seq![' ']);
        lemma_trim_trailing_space(w);
        lemma_trim_trailing_space(w + seq![' ']);
    }
    assert(trim(skip_blanks(r1.skip(k + 1))) == d) by {
        let rest = r1.skip(k + 1);
        assert(rest.drop_first() =~= d);
        if d.len() > 0 {
            lemma_trimmed_ends(d);
        }
        assert(skip_blanks(d) == d);
    }
}


/// An expression of the old output with `par_` written before names: the pieces between
/// the prefixes, joined by `par_`.
pub open spec fn with_par(pieces: Seq<Seq<char>>) -> Seq<char>
    decreases pieces.len(),
{
    if pieces.len() == 0 {
        seq![]
    } else if pieces.len() == 1 {
        pieces[0]
    } else {
        pieces[0] + seq!['p', 'a', 'r', '_'] + with_par(pieces.drop_first())
    }
}

/// The pieces one after the other.
pub open spec fn concat(pieces: Seq<Seq<char>>) -> Seq<char>
    decreases pieces.len(),
{
    if pieces.len() == 0 {
        seq![]
    } else {
        pieces[0] + concat(pieces.drop_first())
    }
}

/// In `a + par_ + b`, where `a` holds no `par_`, the first `par_` is the one after `a`:
/// none begins inside `a`, since no end of `par_` is also a start of it.
proof fn lemma_find_par_after(a: Seq<char>, b: Seq<char>)
    requires
        !contains(a, seq!['p', 'a', 'r', '_']),
    ensures
        find(a + seq!['p', 'a', 'r', '_'] + b, seq!['p', 'a', 'r', '_']) == Some(a.len() as int),
{
    let f = seq!['p', 'a', 'r', '_'];
    let s = a + f + b;
    lemma_find_from(a, f, 0);
    assert(s.subrange(a.len() as int, a.len() as int + 4) =~= f);
    assert forall|j: int| 0 <= j < a.len() implies !matches_at(s, f, j) by {
        if matches_at(s, f, j) {
            if j + 4 <= a.len() {
                assert(a.subrange(j, j + 4) =~= s.subrange(j, j + 4));
                assert(matches_at(a, f, j));
            } else {
                let k = a.len() - j;
                assert(s.subrange(j, j + 4)[k] == s[a.len() as int]);
                assert(s[a.len() as int] == 'p');
                assert(f[k] != 'p');
            }
        }
    }
    lemma_find_from_at(s, f, 0, a.len() as int);
}

/// Dropping every `par_` from pieces joined by `par_` leaves the pieces one after the other.
proof fn lemma_drop_every_par(pieces: Seq<Seq<char>>)
    requires
        forall|i: int| 0 <= i < pieces.len() ==> !contains(#[trigger] pieces[i], seq!['p', 'a', 'r', '_']),
    ensures
        replace(with_par(pieces), seq!['p', 'a', 'r', '_'], seq![]) == concat(pieces),
    decreases pieces.len(),
{
    let f = seq!['p', 'a', 'r', '_'];
    if pieces.len() == 0 {
        assert(find(Seq::<char>::empty(), f) is None);
    } else if pieces.len() == 1 {
        assert(!contains(pieces[0], f));
        assert(concat(pieces.drop_first()) == Seq::<char>::empty());
        assert(concat(pieces) =~= pieces[0]);
    } else {
        let a = pieces[0];
        let rest = pieces.drop_first();
        assert(!contains(a, f));
        assert forall|i: int| 0 <= i < rest.len() implies !contains(#[trigger] rest[i], f) by {
            assert(rest[i] == pieces[i + 1]);
        }
        lemma_drop_every_par(rest);
        lemma_find_par_after(a, with_par(rest));
        let s = a + f + with_par(rest);
        assert(with_par(pieces) == s);
        assert(s.take(a.len() as int) =~= a);
        assert(s.skip(a.len() as int + 4) =~= with_par(rest));
        assert(replace(s, f, seq![]) =~= a + concat(rest));
    }
}

/// Pieces of which none holds `c` join into a text without `c`.
proof fn lemma_concat_without(pieces: Seq<Seq<char>>, c: char)
    requires
        forall|i: int| 0 <= i < pieces.len() ==> !(#[trigger] pieces[i]).contains(c),
    ensures
        !concat(pieces).contains(c),
    decreases pieces.len(),
{
    if pieces.len() > 0 {
        let rest = pieces.drop_first();
        assert forall|i: int| 0 <= i < rest.len() implies !(#[trigger] rest[i]).contains(c) by {
            assert(rest[i] == pieces[i + 1]);
        }
        lemma_concat_without(rest, c);
        assert(!pieces[0].contains(c));
        lemma_no_char_concat(pieces[0], concat(rest), c);
    } else {
        assert(!concat(pieces).contains(c)) by {
            if concat(pieces).contains(c) {
                let i = choose|i: int| 0 <= i < concat(pieces).len() && concat(pieces)[i] == c;
            }
        }
    }
}

/// An old test's expression loses every `par_`, not only the first: written as pieces
/// joined by `par_` (none holding `par_` itself), it reads as the pieces one after the
/// other, with `**` written `^`; where no piece holds `*`, as the pieces unchanged.
pub proof fn law_old_expression_drops_every_par(pieces: Seq<Seq<char>>)
    requires
        forall|i: int| 0 <= i < pieces.len() ==> !contains(#[trigger] pieces[i], seq!['p', 'a', 'r', '_']),
        trim(with_par(pieces)) == with_par(pieces),
    ensures
        crate::parse::old_expression(with_par(pieces)) == replace(
            concat(pieces),
            seq!['*', '*'],
            seq!['^'],
        ),
        (forall|i: int| 0 <= i < pieces.len() ==> !(#[trigger] pieces[i]).contains('*'))
            ==> crate::parse::old_expression(with_par(pieces)) == concat(pieces),
{
    lemma_drop_every_par(pieces);
    if forall|i: int| 0 <= i < pieces.len() ==> !(#[trigger] pieces[i]).contains('*') {
        lemma_concat_without(pieces, '*');
        let c = concat(pieces);
        assert forall|j: int| 0 <= j implies !matches_at(c, seq!['*', '*'], j) by {
            if matches_at(c, seq!['*', '*'], j) {
                assert(c.subrange(j, j + 2)[0] == c[j]);
                assert(c.contains('*'));
            }
        }
        crate::text::lemma_find_from_none(c, seq!['*', '*'], 0);
    }
}


/// A dependency line of the new output made of its parts: `  - name = value :unit`.
pub open spec fn new_dep_line_of(name: Seq<char>, value: Seq<char>, unit: Seq<char>) -> Seq<char> {
    seq![' ', ' ', '-', ' '] + name + seq![' ', '=', ' '] + value + seq![' ', ':'] + unit
}

/// A dependency line `  - name = value :unit` is read part by part: the name trimmed, the
/// value from the text before ` :` alone (as `value_of` reads it; the line is refused where
/// that refuses it), and the unit after it. This holds where the name has no `=`, the value
/// is not empty and holds no whitespace, and the unit is trimmed.
#[verifier::rlimit(40)]
pub proof fn law_new_dep_parts(n: Seq<char>, v: Seq<char>, u: Seq<char>)
    requires
        !n.contains('='),
        v.len() >= 1,
        forall|i: int| 0 <= i < v.len() ==> !is_ws(#[trigger] v[i]),
        trim(u) == u,
    ensures
        crate::parse::new_dep(new_dep_line_of(n, v, u)) == match value_of(v) {
            Ok(value) => Ok::<Option<DepModel>, crate::parse::ErrorModel>(
                Some(DepModel { name: trim(n), value, unit: Some(u) }),
            ),
            Err(e) => Err(e),
        },
{
    let line = new_dep_line_of(n, v, u);
    let l = n + seq![' ', '=', ' '] + v + seq![' ', ':'] + u;
    let dl = seq!['-', ' '] + l;
    assert(line =~= seq![' ', ' '] + dl);
    assert(trim_start(line) == dl) by {
        let l1 = seq![' '] + dl;
        assert(line.drop_first() =~= l1);
        assert(l1.drop_first() =~= dl);
        assert(is_ws(line[0]) && is_ws(l1[0]));
        assert(dl[0] == '-');
        assert(trim_start(dl) == dl);
        assert(trim_start(l1) == trim_start(dl));
        assert(trim_start(line) == trim_start(l1));
    }
    assert(trim(line).len() > 0) by {
        lemma_trim_end_keeps_first(dl);
    }
    assert(strip_prefix(dl, seq!['-', ' ']) == Some(l)) by {
        assert(dl.take(2) =~= seq!['-', ' ']);
        assert(dl.skip(2) =~= l);
    }
    let eq = seq![' ', '=', ' '];
    let r = v + seq![' ', ':'] + u;
    assert(crate::text::split_once(l, eq) == Some((n, r))) by {
        assert(l =~= n + eq + r);
        assert(l.subrange(n.len() as int, n.len() as int + 3) =~= eq);
        assert forall|j: int| 0 <= j < n.len() implies !matches_at(l, eq, j) by {
            if matches_at(l, eq, j) {
                assert(l.subrange(j, j + 3)[1] == l[j + 1]);
                if j + 1 < n.len() {
                    assert(l[j + 1] == n[j + 1]);
                    assert(n.contains('='));
                } else {
                    assert(l[j + 1] == ' ');
                }
            }
        }
        lemma_find_from_at(l, eq, 0, n.len() as int);
        assert(l.take(n.len() as int) =~= n);
        assert(l.skip(n.len() as int + 3) =~= r);
    }
    assert(!is_ws(v[0]));
    assert(!is_ws(v.last()));
    lemma_trim_fixed(v);
    assert(trim(r) == r) by {
        if u.len() > 0 {
            lemma_trimmed_ends(u);
            assert(r.last() == u.last());
        } else {
            assert(r.last() == ':');
        }
        assert(r[0] == v[0]);
        lemma_trim_fixed(r);
    }
    let sc = seq![' ', ':'];
    assert(crate::text::split_once(r, sc) == Some((v, u))) by {
        assert(r.subrange(v.len() as int, v.len() as int + 2) =~= sc);
        assert forall|j: int| 0 <= j < v.len() implies !matches_at(r, sc, j) by {
            if matches_at(r, sc, j) {
                assert(r.subrange(j, j + 2)[0] == r[j]);
                assert(r[j] == v[j]);
            }
        }
        lemma_find_from_at(r, sc, 0, v.len() as int);
        assert(r.take(v.len() as int) =~= v);
        assert(r.skip(v.len() as int + 2) =~= u);
    }
}


/// A parameter of a name that is not ignored and stands in both runs is reported unchanged
/// exactly where its unit and description are equal and its values close; else changed.
/// A change of unit alone, or of description alone, is reported.
pub proof fn law_param_diff_compares_every_field<F: Fn(&String, &String) -> bool>(
    close: F,
    old: Seq<ParamModel>,
    new: Seq<ParamModel>,
    ignore: Seq<Seq<char>>,
    n: Seq<char>,
)
    requires
        !ignore.contains(n),
        param_names(old).contains(n),
        param_names(new).contains(n),
    ensures
        ({
            let o = lookup_param(old, n)->0;
            let m = lookup_param(new, n)->0;
            &&& lookup_param(old, n) is Some
            &&& lookup_param(new, n) is Some
            &&& param_diff(close, old, new, ignore, n) == Some(
                if o.unit == m.unit && o.description == m.description && values_close(
                    close,
                    o.value,
                    m.value,
                ) {
                    Diff::Same(o)
                } else {
                    Diff::Different(o, m)
                },
            )
        }),
{
    lemma_last_index(param_names(old), n);
    lemma_last_index(param_names(new), n);
    let i = last_index(param_names(old), n)->0;
    let j = last_index(param_names(new), n)->0;
    assert(param_names(old)[i] == old[i].name);
    assert(param_names(new)[j] == new[j].name);
}

/// A test of an expression that is not ignored and stands in both runs is reported
/// unchanged exactly where its model is the same and its results are the same; else
/// changed.
pub proof fn law_test_diff_compares_every_field<F: Fn(&String, &String) -> bool>(
    close: F,
    old: Seq<TestModel>,
    new: Seq<TestModel>,
    ignore: Seq<Seq<char>>,
    n: Seq<char>,
)
    requires
        !ignore.contains(n),
        test_exprs(old).contains(n),
        test_exprs(new).contains(n),
    ensures
        ({
            let o = lookup_test(old, n)->0;
            let m = lookup_test(new, n)->0;
            &&& lookup_test(old, n) is Some
            &&& lookup_test(new, n) is Some
            &&& test_diff(close, old, new, ignore, n) == Some(
                if o.model == m.model && results_same(close, o.result, m.result) {
                    Diff::Same(o)
                } else {
                    Diff::Different(o, m)
                },
            )
        }),
{
    lemma_last_index(test_exprs(old), n);
    lemma_last_index(test_exprs(new), n);
    let i = last_index(test_exprs(old), n)->0;
    let j = last_index(test_exprs(new), n)->0;
    assert(test_exprs(old)[i] == old[i].expression);
    assert(test_exprs(new)[j] == new[j].expression);
}

/// The kind of a value: a number, an interval, the empty interval, or a string.
pub open spec fn value_kind(v: ValueModel) -> int {
    match v {
        ValueModel::Scalar(_) => 0,
        ValueModel::Interval { .. } => 1,
        ValueModel::EmptyInterval => 2,
        ValueModel::Str(_) => 3,
    }
}

/// Two values are the same only where they are of one kind; two numbers where `close`
/// finds them close; two intervals where it finds both their minimums and their maximums
/// close; two strings where they are equal; two empty intervals always.
pub proof fn law_values_close_by_kind<F: Fn(&String, &String) -> bool>(
    close: F,
    a: ValueModel,
    b: ValueModel,
)
    ensures
        value_kind(a) != value_kind(b) ==> !values_close(close, a, b),
        match (a, b) {
            (ValueModel::Scalar(x), ValueModel::Scalar(y)) => values_close(close, a, b)
                == judged_close(close, x, y),
            (
                ValueModel::Interval { min: a_min, max: a_max },
                ValueModel::Interval { min: b_min, max: b_max },
            ) => values_close(close, a, b) == (judged_close(close, a_min, b_min) && judged_close(
                close,
                a_max,
                b_max,
            )),
            (ValueModel::Str(x), ValueModel::Str(y)) => values_close(close, a, b) == (x == y),
            (ValueModel::EmptyInterval, ValueModel::EmptyInterval) => values_close(close, a, b),
            _ => true,
        },
{
}

/// The number that a text of decimal digits denotes.
pub open spec fn decimal_value(s: Seq<char>) -> int
    decreases s.len(),
{
    if s.len() == 0 {
        0
    } else {
        10 * decimal_value(s.drop_last()) + (s.last() as int - '0' as int)
    }
}

/// Each digit is the character whose code is that of `0` plus the digit.
pub proof fn law_digit_code(d: nat)
    requires
        d < 10,
    ensures
        crate::text::digit(d) as int == '0' as int + d,
{
}

/// The decimal notation of a count is made of digits, has no leading zero, and denotes
/// the count.
pub proof fn law_decimal_denotes(n: nat)
    ensures
        crate::text::decimal(n).len() > 0,
        forall|i: int| 0 <= i < crate::text::decimal(n).len() ==> crate::number::is_digit(
            #[trigger] crate::text::decimal(n)[i],
        ),
        n > 0 ==> crate::text::decimal(n)[0] != '0',
        decimal_value(crate::text::decimal(n)) == n,
    decreases n,
{
    let s = crate::text::decimal(n);
    if n < 10 {
        law_digit_code(n);
        assert(s.drop_last() =~= Seq::<char>::empty());
        assert(decimal_value(s.drop_last()) == 0);
        assert(s.last() == crate::text::digit(n));
    } else {
        law_decimal_denotes(n / 10);
        law_digit_code(n % 10);
        let t = crate::text::decimal(n / 10);
        assert(s == t.push(crate::text::digit(n % 10)));
        assert(s.drop_last() =~= t);
        assert(s[0] == t[0]);
        assert forall|i: int| 0 <= i < s.len() implies crate::number::is_digit(#[trigger] s[i]) by {
            if i < t.len() {
                assert(s[i] == t[i]);
            }
        }
        vstd::arithmetic::div_mod::lemma_fundamental_div_mod(n as int, 10);
        assert(s.last() == crate::text::digit(n % 10));
        assert(decimal_value(s) == 10 * decimal_value(t) + (n % 10));
    }
}

} // verus!
