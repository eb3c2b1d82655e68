//! Matching the parameters and tests of two runs and telling what changed.
use vstd::prelude::*;
use crate::keys::{contains_key, last_index, last_index_in, sorted_union, strictly_sorted, views};
use crate::parse::{
    deps_view, params_view, tests_view, DepModel, Param, ParamModel, ParamValue, ResultModel,
    Test, TestDependencyParam, TestModel, TestResult, ValueModel,
};

verus! {

/// How an item of the old run relates to the item of the new run with the same key.
#[derive(Debug, Clone)]
pub enum Diff<T> {
    OldOnly(T),
    Same(T),
    Different(T, T),
    NewOnly(T),
}

impl<T: View> View for Diff<T> {
    type V = Diff<T::V>;

    open spec fn view(&self) -> Diff<T::V> {
        match self {
            Diff::OldOnly(a) => Diff::OldOnly(a@),
            Diff::Same(a) => Diff::Same(a@),
            Diff::Different(a, b) => Diff::Different(a@, b@),
            Diff::NewOnly(b) => Diff::NewOnly(b@),
        }
    }
}

/// The item that a diff shows first: the old one where there is one.
pub open spec fn first_of<T>(d: Diff<T>) -> T {
    match d {
        Diff::OldOnly(a) => a,
        Diff::Same(a) => a,
        Diff::Different(a, _) => a,
        Diff::NewOnly(a) => a,
    }
}

impl<T> Diff<T> {
    /// The item shown first: the old one where there is one.
    pub fn first(&self) -> (r: &T)
        ensures
            *r == first_of(*self),
    {
        match self {
            Diff::OldOnly(a) => a,
            Diff::Same(a) => a,
            Diff::Different(a, _) => a,
            Diff::NewOnly(a) => a,
        }
    }
}

/// The diff reported as unchanged, showing the newer item where there is one.
pub open spec fn forced_same<T>(d: Diff<T>) -> Diff<T> {
    match d {
        Diff::OldOnly(a) => Diff::Same(a),
        Diff::Same(a) => Diff::Same(a),
        Diff::Different(_, b) => Diff::Same(b),
        Diff::NewOnly(b) => Diff::Same(b),
    }
}

/// Reports a diff as unchanged (for an ignored key).
pub fn force_same<T>(diff: Diff<T>) -> (r: Diff<T>)
    ensures
        r == forced_same(diff),
{
    match diff {
        Diff::OldOnly(a) => Diff::Same(a),
        Diff::Same(a) => Diff::Same(a),
        Diff::Different(_, b) => Diff::Same(b),
        Diff::NewOnly(b) => Diff::Same(b),
    }
}

/// `close` can be asked of any two numbers and answers by their text alone.
pub open spec fn well_behaved<F: Fn(&String, &String) -> bool>(close: F) -> bool {
    &&& forall|a: &String, b: &String| call_requires(close, (a, b))
    &&& forall|a1: &String, b1: &String, a2: &String, b2: &String, r1: bool, r2: bool|
        #![trigger call_ensures(close, (a1, b1), r1), call_ensures(close, (a2, b2), r2)]
        call_ensures(close, (a1, b1), r1) && call_ensures(close, (a2, b2), r2) && a1@ == a2@
            && b1@ == b2@ ==> r1 == r2
}

/// Whether `close` finds the numbers written `a` and `b` close.
pub open spec fn judged_close<F: Fn(&String, &String) -> bool>(
    close: F,
    a: Seq<char>,
    b: Seq<char>,
) -> bool {
    exists|x: &String, y: &String| x@ == a && y@ == b && #[trigger] call_ensures(close, (x, y), true)
}

/// Asks `close` whether two numbers are close.
fn numbers_close<F: Fn(&String, &String) -> bool>(close: &F, a: &String, b: &String) -> (r: bool)
    requires
        well_behaved(*close),
    ensures
        r == judged_close(*close, a@, b@),
{
    let r = close(a, b);
    proof {
        if !r && judged_close(*close, a@, b@) {
            let (x, y) = choose|x: &String, y: &String|
                x@ == a@ && y@ == b@ && #[trigger] call_ensures(*close, (x, y), true);
            assert(call_ensures(*close, (a, b), r));
        }
        if r {
            assert(call_ensures(*close, (a, b), true));
        }
    }
    r
}

/// Whether two values are the same: numbers that `close` finds close (both ends of an
/// interval), two empty intervals, or equal strings.
pub open spec fn values_close<F: Fn(&String, &String) -> bool>(
    close: F,
    a: ValueModel,
    b: ValueModel,
) -> bool {
    match (a, b) {
        (ValueModel::Scalar(x), ValueModel::Scalar(y)) => judged_close(close, x, y),
        (
            ValueModel::Interval { min: a_min, max: a_max },
            ValueModel::Interval { min: b_min, max: b_max },
        ) => judged_close(close, a_min, b_min) && judged_close(close, a_max, b_max),
        (ValueModel::EmptyInterval, ValueModel::EmptyInterval) => true,
        (ValueModel::Str(x), ValueModel::Str(y)) => x == y,
        _ => false,
    }
}

fn value_is_close<F: Fn(&String, &String) -> bool>(
    a: &ParamValue,
    b: &ParamValue,
    close: &F,
) -> (r: bool)
    requires
        well_behaved(*close),
    ensures
        r == values_close(*close, a@, b@),
{
    match (a, b) {
        (ParamValue::Scalar(x), ParamValue::Scalar(y)) => numbers_close(close, x, y),
        (
            ParamValue::Interval { min: a_min, max: a_max },
            ParamValue::Interval { min: b_min, max: b_max },
        ) => numbers_close(close, a_min, b_min) && numbers_close(close, a_max, b_max),
        (ParamValue::EmptyInterval, ParamValue::EmptyInterval) => true,
        (ParamValue::Str(x), ParamValue::Str(y)) => crate::text::str_eq(x.as_str(), y.as_str()),
        _ => false,
    }
}

fn opt_eq(a: &Option<String>, b: &Option<String>) -> (r: bool)
    ensures
        r == (crate::parse::opt_view(*a) == crate::parse::opt_view(*b)),
{
    match (a, b) {
        (Some(x), Some(y)) => crate::text::str_eq(x.as_str(), y.as_str()),
        (None, None) => true,
        _ => false,
    }
}

/// Two parameters are the same: same name, close values, same unit and description.
pub open spec fn params_same<F: Fn(&String, &String) -> bool>(
    close: F,
    a: ParamModel,
    b: ParamModel,
) -> bool {
    a.name == b.name && values_close(close, a.value, b.value) && a.unit == b.unit && a.description
        == b.description
}

fn params_equal<F: Fn(&String, &String) -> bool>(a: &Param, b: &Param, close: &F) -> (r: bool)
    requires
        well_behaved(*close),
    ensures
        r == params_same(*close, a@, b@),
{
    crate::text::str_eq(a.name.as_str(), b.name.as_str()) && value_is_close(&a.value, &b.value, close)
        && opt_eq(&a.unit, &b.unit) && crate::text::str_eq(
        a.description.as_str(),
        b.description.as_str(),
    )
}

/// Items matched by a text key.
pub trait Keyed: View + Sized {
    /// The key of an item's model.
    spec fn key_spec(m: Self::V) -> Seq<char>;

    /// The key of the item.
    fn key(&self) -> (r: &String)
        ensures
            r@ == Self::key_spec(self@),
    ;
}

impl Keyed for TestDependencyParam {
    open spec fn key_spec(m: DepModel) -> Seq<char> {
        m.name
    }

    fn key(&self) -> (r: &String) {
        &self.name
    }
}

impl Keyed for Param {
    open spec fn key_spec(m: ParamModel) -> Seq<char> {
        m.name
    }

    fn key(&self) -> (r: &String) {
        &self.name
    }
}

impl Keyed for Test {
    open spec fn key_spec(m: TestModel) -> Seq<char> {
        m.expression
    }

    fn key(&self) -> (r: &String) {
        &self.expression
    }
}

/// The keys of the items, in order.
fn keys_of<T: Keyed>(xs: &[T]) -> (r: Vec<String>)
    ensures
        views(r@) == xs@.map_values(|x: T| T::key_spec(x@)),
{
    let ghost ks = xs@.map_values(|x: T| T::key_spec(x@));
    let mut r: Vec<String> = Vec::new();
    let mut i: usize = 0;
    while i < xs.len()
        invariant
            i <= xs@.len(),
            ks == xs@.map_values(|x: T| T::key_spec(x@)),
            views(r@) == ks.take(i as int),
        decreases xs.len() - i,
    {
        let ghost before = views(r@);
        r.push(xs[i].key().clone());
        assert(views(r@) =~= before.push(ks[i as int]));
        assert(views(r@) =~= ks.take(i + 1));
        i = i + 1;
    }
    assert(ks.take(i as int) =~= ks);
    r
}

/// The names of a sequence of dependencies.
pub open spec fn dep_names(ds: Seq<DepModel>) -> Seq<Seq<char>> {
    ds.map_values(|d: DepModel| d.name)
}

/// The last dependency with name `n`.
pub open spec fn lookup_dep(ds: Seq<DepModel>, n: Seq<char>) -> Option<DepModel> {
    match last_index(dep_names(ds), n) {
        Some(i) => Some(ds[i]),
        None => None,
    }
}

/// The dependencies of two failures are close: as many of each, and for each name of the
/// old ones, the new ones have one with the same unit and a close value (the last one of
/// each name counting).
pub open spec fn deps_close<F: Fn(&String, &String) -> bool>(
    close: F,
    old: Seq<DepModel>,
    new: Seq<DepModel>,
) -> bool {
    old.len() == new.len() && forall|n: Seq<char>| #[trigger]
        dep_names(old).contains(n) ==> match (lookup_dep(old, n), lookup_dep(new, n)) {
            (Some(o), Some(m)) => o.unit == m.unit && values_close(close, o.value, m.value),
            _ => false,
        }
}

fn names_of_deps(ds: &Vec<TestDependencyParam>) -> (r: Vec<String>)
    ensures
        views(r@) == dep_names(deps_view(ds@)),
{
    let r = keys_of(ds.as_slice());
    assert(dep_names(deps_view(ds@)) =~= ds@.map_values(
        |x: TestDependencyParam| <TestDependencyParam as Keyed>::key_spec(x@),
    ));
    r
}

/// Whether the dependencies of two failed tests are the same (see `deps_close`): as many
/// on each side, and each old one found by name on the new side with the same unit and a
/// value that `close` finds the same.
pub fn test_dependency_params_are_close<F: Fn(&String, &String) -> bool>(
    old: &Vec<TestDependencyParam>,
    new: &Vec<TestDependencyParam>,
    close: &F,
) -> (r: bool)
    requires
        well_behaved(*close),
    ensures
        r == deps_close(*close, deps_view(old@), deps_view(new@)),
{
    let ghost ov = deps_view(old@);
    let ghost nv = deps_view(new@);
    if old.len() != new.len() {
        return false;
    }
    let old_names = names_of_deps(old);
    let new_names = names_of_deps(new);
    let mut i: usize = 0;
    while i < old.len()
        invariant
            i <= old@.len(),
            old@.len() == new@.len(),
            ov == deps_view(old@),
            nv == deps_view(new@),
            views(old_names@) == dep_names(ov),
            views(new_names@) == dep_names(nv),
            well_behaved(*close),
            forall|t: int| #![trigger ov[t]]
                0 <= t < i ==> match (lookup_dep(ov, ov[t].name), lookup_dep(nv, ov[t].name)) {
                    (Some(o), Some(m)) => o.unit == m.unit && values_close(*close, o.value, m.value),
                    _ => false,
                },
        decreases old.len() - i,
    {
        let name = &old[i].name;
        assert(ov[i as int].name == name@);
        let oi = match last_index_in(&old_names, name.as_str()) {
            Some(oi) => oi,
            None => {
                proof {
                    crate::keys::lemma_last_index(dep_names(ov), name@);
                    assert(dep_names(ov)[i as int] == name@);
                }
                return false;
            },
        };
        proof {
            crate::keys::lemma_last_index(dep_names(ov), name@);
        }
        let ni = match last_index_in(&new_names, name.as_str()) {
            Some(ni) => ni,
            None => {
                proof {
                    assert(dep_names(ov).contains(name@)) by {
                        assert(dep_names(ov)[i as int] == name@);
                    }
                }
                return false;
            },
        };
        proof {
            crate::keys::lemma_last_index(dep_names(nv), name@);
        }
        let o = &old[oi];
        let m = &new[ni];
        if !(opt_eq(&o.unit, &m.unit) && value_is_close(&o.value, &m.value, close)) {
            proof {
                assert(dep_names(ov).contains(name@)) by {
                    assert(dep_names(ov)[i as int] == name@);
                }
            }
            return false;
        }
        i = i + 1;
    }
    assert forall|n: Seq<char>| #[trigger] dep_names(ov).contains(n) implies match (
        lookup_dep(ov, n),
        lookup_dep(nv, n),
    ) {
        (Some(o), Some(m)) => o.unit == m.unit && values_close(*close, o.value, m.value),
        _ => false,
    } by {
        let t = choose|t: int| 0 <= t < dep_names(ov).len() && dep_names(ov)[t] == n;
        assert(ov[t].name == n);
    }
    true
}

/// Two outcomes are the same: two passes, or two failures with close dependencies.
pub open spec fn results_same<F: Fn(&String, &String) -> bool>(
    close: F,
    a: ResultModel,
    b: ResultModel,
) -> bool {
    match (a, b) {
        (ResultModel::Pass, ResultModel::Pass) => true,
        (ResultModel::Fail(x), ResultModel::Fail(y)) => deps_close(close, x, y),
        _ => false,
    }
}

fn test_results_equal<F: Fn(&String, &String) -> bool>(
    a: &TestResult,
    b: &TestResult,
    close: &F,
) -> (r: bool)
    requires
        well_behaved(*close),
    ensures
        r == results_same(*close, a@, b@),
{
    match (a, b) {
        (TestResult::Pass, TestResult::Pass) => true,
        (TestResult::Fail(x), TestResult::Fail(y)) => test_dependency_params_are_close(x, y, close),
        _ => false,
    }
}

/// Two tests are the same: same model and expression, and the same outcome.
pub open spec fn tests_same<F: Fn(&String, &String) -> bool>(
    close: F,
    a: TestModel,
    b: TestModel,
) -> bool {
    a.model == b.model && a.expression == b.expression && results_same(close, a.result, b.result)
}

fn tests_equal<F: Fn(&String, &String) -> bool>(a: &Test, b: &Test, close: &F) -> (r: bool)
    requires
        well_behaved(*close),
    ensures
        r == tests_same(*close, a@, b@),
{
    crate::text::str_eq(a.model.as_str(), b.model.as_str()) && crate::text::str_eq(
        a.expression.as_str(),
        b.expression.as_str(),
    ) && test_results_equal(&a.result, &b.result, close)
}

/// The names of a sequence of parameters.
pub open spec fn param_names(xs: Seq<ParamModel>) -> Seq<Seq<char>> {
    xs.map_values(|x: ParamModel| x.name)
}

/// The last parameter with name `n` (a map filled in order keeps it).
pub open spec fn lookup_param(xs: Seq<ParamModel>, n: Seq<char>) -> Option<ParamModel> {
    match last_index(param_names(xs), n) {
        Some(i) => Some(xs[i]),
        None => None,
    }
}

/// What the diff for name `n` reports: only in the old run, only in the new one, the
/// same, or different; always the same where `n` is ignored.
pub open spec fn param_diff<F: Fn(&String, &String) -> bool>(
    close: F,
    old: Seq<ParamModel>,
    new: Seq<ParamModel>,
    ignore: Seq<Seq<char>>,
    n: Seq<char>,
) -> Option<Diff<ParamModel>> {
    let raw = match (lookup_param(old, n), lookup_param(new, n)) {
        (Some(o), None) => Some(Diff::OldOnly(o)),
        (None, Some(m)) => Some(Diff::NewOnly(m)),
        (Some(o), Some(m)) => Some(
            if params_same(close, o, m) {
                Diff::Same(o)
            } else {
                Diff::Different(o, m)
            },
        ),
        (None, None) => None,
    };
    match raw {
        Some(d) => Some(
            if ignore.contains(n) {
                forced_same(d)
            } else {
                d
            },
        ),
        None => None,
    }
}

/// The models of a sequence of diffs of parameters.
pub open spec fn param_diffs_view(ds: Seq<Diff<Param>>) -> Seq<Diff<ParamModel>> {
    ds.map_values(|d: Diff<Param>| d@)
}

/// The names that the diffs are for.
pub open spec fn param_diff_keys(ds: Seq<Diff<ParamModel>>) -> Seq<Seq<char>> {
    ds.map_values(|d: Diff<ParamModel>| first_of(d).name)
}

fn names_of_params(xs: &[Param]) -> (r: Vec<String>)
    ensures
        views(r@) == param_names(params_view(xs@)),
{
    let r = keys_of(xs);
    assert(param_names(params_view(xs@)) =~= xs@.map_values(
        |x: Param| <Param as Keyed>::key_spec(x@),
    ));
    r
}

/// Diffs the parameters of the old run against those of the new one, matched by name:
/// one diff for each name of either run, in sorted order. For names in `ignore`
/// the diff is always `Same`, showing the new parameter where there is one. `close` tells
/// whether two numbers are close.
pub fn diff_params<F: Fn(&String, &String) -> bool>(
    old_params: &[Param],
    new_params: &[Param],
    ignore_params: &[String],
    close: &F,
) -> (r: Vec<Diff<Param>>)
    requires
        well_behaved(*close),
    ensures
        strictly_sorted(param_diff_keys(param_diffs_view(r@))),
        forall|n: Seq<char>| #[trigger]
            param_diff_keys(param_diffs_view(r@)).contains(n) <==> (param_names(params_view(old_params@)).contains(n)
                || param_names(params_view(new_params@)).contains(n)),
        forall|i: int|
            0 <= i < r@.len() ==> param_diff(
                *close,
                params_view(old_params@),
                params_view(new_params@),
                views(ignore_params@),
                #[trigger] param_diff_keys(param_diffs_view(r@))[i],
            ) == Some(r@[i]@),
{
    let ghost ov = params_view(old_params@);
    let ghost nv = params_view(new_params@);
    let old_names = names_of_params(old_params);
    let new_names = names_of_params(new_params);
    let keys = sorted_union(&old_names, &new_names);
    let mut r: Vec<Diff<Param>> = Vec::new();
    let mut i: usize = 0;
    while i < keys.len()
        invariant
            i <= keys@.len(),
            ov == params_view(old_params@),
            nv == params_view(new_params@),
            views(old_names@) == param_names(ov),
            views(new_names@) == param_names(nv),
            well_behaved(*close),
            strictly_sorted(views(keys@)),
            forall|n: Seq<char>| #[trigger]
                views(keys@).contains(n) <==> (param_names(ov).contains(n) || param_names(nv).contains(n)),
            param_diff_keys(param_diffs_view(r@)) == views(keys@).take(i as int),
            forall|j: int|
                0 <= j < r@.len() ==> param_diff(
                    *close,
                    ov,
                    nv,
                    views(ignore_params@),
                    #[trigger] param_diff_keys(param_diffs_view(r@))[j],
                ) == Some(r@[j]@),
        decreases keys.len() - i,
    {
        let k = &keys[i];
        assert(views(keys@)[i as int] == k@);
        assert(views(keys@).contains(k@));
        let oi = last_index_in(&old_names, k.as_str());
        let ni = last_index_in(&new_names, k.as_str());
        proof {
            crate::keys::lemma_last_index(param_names(ov), k@);
            crate::keys::lemma_last_index(param_names(nv), k@);
        }
        let raw = match (oi, ni) {
            (Some(a), None) => Diff::OldOnly(old_params[a].copy()),
            (None, Some(b)) => Diff::NewOnly(new_params[b].copy()),
            (Some(a), Some(b)) => if params_equal(&old_params[a], &new_params[b], close) {
                Diff::Same(old_params[a].copy())
            } else {
                Diff::Different(old_params[a].copy(), new_params[b].copy())
            },
            (None, None) => {
                proof {
                    assert(false);
                }
                Diff::Same(old_params[0].copy())
            },
        };
        let d = if contains_key(ignore_params, k.as_str()) {
            force_same(raw)
        } else {
            raw
        };
        assert(param_diff(*close, ov, nv, views(ignore_params@), k@) == Some(d@));
        assert(first_of(d@).name == k@);
        let ghost before = r@;
        r.push(d);
        proof {
            assert(param_diffs_view(r@) =~= param_diffs_view(before).push(d@));
            assert(param_diff_keys(param_diffs_view(r@)) =~= param_diff_keys(param_diffs_view(before)).push(k@));
            assert(views(keys@).take(i + 1) =~= views(keys@).take(i as int).push(k@));
            assert forall|j: int|
                0 <= j < r@.len() implies param_diff(
                *close,
                ov,
                nv,
                views(ignore_params@),
                #[trigger] param_diff_keys(param_diffs_view(r@))[j],
            ) == Some(r@[j]@) by {
                if j < before.len() {
                    assert(param_diff_keys(param_diffs_view(r@))[j] == param_diff_keys(param_diffs_view(before))[j]);
                    assert(r@[j] == before[j]);
                }
            }
        }
        i = i + 1;
    }
    assert(views(keys@).take(i as int) =~= views(keys@));
    r
}

/// The expressions of a sequence of tests.
pub open spec fn test_exprs(xs: Seq<TestModel>) -> Seq<Seq<char>> {
    xs.map_values(|x: TestModel| x.expression)
}

/// The last test with expression `n` (a map filled in order keeps it).
pub open spec fn lookup_test(xs: Seq<TestModel>, n: Seq<char>) -> Option<TestModel> {
    match last_index(test_exprs(xs), n) {
        Some(i) => Some(xs[i]),
        None => None,
    }
}

/// What the diff for expression `n` reports: only in the old run, only in the new one, the
/// same, or different; always the same where `n` is ignored.
pub open spec fn test_diff<F: Fn(&String, &String) -> bool>(
    close: F,
    old: Seq<TestModel>,
    new: Seq<TestModel>,
    ignore: Seq<Seq<char>>,
    n: Seq<char>,
) -> Option<Diff<TestModel>> {
    let raw = match (lookup_test(old, n), lookup_test(new, n)) {
        (Some(o), None) => Some(Diff::OldOnly(o)),
        (None, Some(m)) => Some(Diff::NewOnly(m)),
        (Some(o), Some(m)) => Some(
            if tests_same(close, o, m) {
                Diff::Same(o)
            } else {
                Diff::Different(o, m)
            },
        ),
        (None, None) => None,
    };
    match raw {
        Some(d) => Some(
            if ignore.contains(n) {
                forced_same(d)
            } else {
                d
            },
        ),
        None => None,
    }
}

/// The models of a sequence of diffs of tests.
pub open spec fn test_diffs_view(ds: Seq<Diff<Test>>) -> Seq<Diff<TestModel>> {
    ds.map_values(|d: Diff<Test>| d@)
}

/// The expressions that the diffs are for.
pub open spec fn test_diff_keys(ds: Seq<Diff<TestModel>>) -> Seq<Seq<char>> {
    ds.map_values(|d: Diff<TestModel>| first_of(d).expression)
}

fn exprs_of_tests(xs: &[Test]) -> (r: Vec<String>)
    ensures
        views(r@) == test_exprs(tests_view(xs@)),
{
    let r = keys_of(xs);
    assert(test_exprs(tests_view(xs@)) =~= xs@.map_values(|x: Test| <Test as Keyed>::key_spec(x@)));
    r
}

/// Diffs the tests of the old run against those of the new one, matched by expression:
/// one diff for each expression of either run, in sorted order. For expressions in `ignore`
/// the diff is always `Same`, showing the new test where there is one. `close` tells
/// whether two numbers are close.
pub fn diff_tests<F: Fn(&String, &String) -> bool>(
    old_tests: &[Test],
    new_tests: &[Test],
    ignore_tests: &[String],
    close: &F,
) -> (r: Vec<Diff<Test>>)
    requires
        well_behaved(*close),
    ensures
        strictly_sorted(test_diff_keys(test_diffs_view(r@))),
        forall|n: Seq<char>| #[trigger]
            test_diff_keys(test_diffs_view(r@)).contains(n) <==> (test_exprs(tests_view(old_tests@)).contains(n)
                || test_exprs(tests_view(new_tests@)).contains(n)),
        forall|i: int|
            0 <= i < r@.len() ==> test_diff(
                *close,
                tests_view(old_tests@),
                tests_view(new_tests@),
                views(ignore_tests@),
                #[trigger] test_diff_keys(test_diffs_view(r@))[i],
            ) == Some(r@[i]@),
{
    let ghost ov = tests_view(old_tests@);
    let ghost nv = tests_view(new_tests@);
    let old_names = exprs_of_tests(old_tests);
    let new_names = exprs_of_tests(new_tests);
    let keys = sorted_union(&old_names, &new_names);
    let mut r: Vec<Diff<Test>> = Vec::new();
    let mut i: usize = 0;
    while i < keys.len()
        invariant
            i <= keys@.len(),
            ov == tests_view(old_tests@),
            nv == tests_view(new_tests@),
            views(old_names@) == test_exprs(ov),
            views(new_names@) == test_exprs(nv),
            well_behaved(*close),
            strictly_sorted(views(keys@)),
            forall|n: Seq<char>| #[trigger]
                views(keys@).contains(n) <==> (test_exprs(ov).contains(n) || test_exprs(nv).contains(n)),
            test_diff_keys(test_diffs_view(r@)) == views(keys@).take(i as int),
            forall|j: int|
                0 <= j < r@.len() ==> test_diff(
                    *close,
                    ov,
                    nv,
                    views(ignore_tests@),
                    #[trigger] test_diff_keys(test_diffs_view(r@))[j],
                ) == Some(r@[j]@),
        decreases keys.len() - i,
    {
        let k = &keys[i];
        assert(views(keys@)[i as int] == k@);
        assert(views(keys@).contains(k@));
        let oi = last_index_in(&old_names, k.as_str());
        let ni = last_index_in(&new_names, k.as_str());
        proof {
            crate::keys::lemma_last_index(test_exprs(ov), k@);
            crate::keys::lemma_last_index(test_exprs(nv), k@);
        }
        let raw = match (oi, ni) {
            (Some(a), None) => Diff::OldOnly(old_tests[a].copy()),
            (None, Some(b)) => Diff::NewOnly(new_tests[b].copy()),
            (Some(a), Some(b)) => if tests_equal(&old_tests[a], &new_tests[b], close) {
                Diff::Same(old_tests[a].copy())
            } else {
                Diff::Different(old_tests[a].copy(), new_tests[b].copy())
            },
            (None, None) => {
                proof {
                    assert(false);
                }
                Diff::Same(old_tests[0].copy())
            },
        };
        let d = if contains_key(ignore_tests, k.as_str()) {
            force_same(raw)
        } else {
            raw
        };
        assert(test_diff(*close, ov, nv, views(ignore_tests@), k@) == Some(d@));
        assert(first_of(d@).expression == k@);
        let ghost before = r@;
        r.push(d);
        proof {
            assert(test_diffs_view(r@) =~= test_diffs_view(before).push(d@));
            assert(test_diff_keys(test_diffs_view(r@)) =~= test_diff_keys(test_diffs_view(before)).push(k@));
            assert(views(keys@).take(i + 1) =~= views(keys@).take(i as int).push(k@));
            assert forall|j: int|
                0 <= j < r@.len() implies test_diff(
                *close,
                ov,
                nv,
                views(ignore_tests@),
                #[trigger] test_diff_keys(test_diffs_view(r@))[j],
            ) == Some(r@[j]@) by {
                if j < before.len() {
                    assert(test_diff_keys(test_diffs_view(r@))[j] == test_diff_keys(test_diffs_view(before))[j]);
                    assert(r@[j] == before[j]);
                }
            }
        }
        i = i + 1;
    }
    assert(views(keys@).take(i as int) =~= views(keys@));
    r
}

} // verus!
