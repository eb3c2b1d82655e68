//! Reading the parameters and tests out of the output of the two model runners.
use vstd::prelude::*;
use crate::number::{number_text, parse_int_or_float};
use crate::text::{
    contains, find, find_in, lines, push_range, replace, replace_all, split, split_once, string_of,
    string_of_range, strip_prefix, trim, trim_at, trim_start, skip_blanks, skip_blanks_at,
    starts_with_at, push_all,
};

verus! {

/// The value of a parameter.
///
/// A number is held as the literal that denotes it: the text that `f64`'s `FromStr` reads.
#[derive(Debug, Clone)]
pub enum ParamValue {
    Scalar(String),
    Interval { min: String, max: String },
    EmptyInterval,
    Str(String),
}

/// What a `ParamValue` holds, as text.
pub enum ValueModel {
    Scalar(Seq<char>),
    Interval { min: Seq<char>, max: Seq<char> },
    EmptyInterval,
    Str(Seq<char>),
}

impl View for ParamValue {
    type V = ValueModel;

    open spec fn view(&self) -> ValueModel {
        match self {
            ParamValue::Scalar(v) => ValueModel::Scalar(v@),
            ParamValue::Interval { min, max } => ValueModel::Interval { min: min@, max: max@ },
            ParamValue::EmptyInterval => ValueModel::EmptyInterval,
            ParamValue::Str(s) => ValueModel::Str(s@),
        }
    }
}

/// An optional text, by its characters.
pub open spec fn opt_view(o: Option<String>) -> Option<Seq<char>> {
    match o {
        Some(s) => Some(s@),
        None => None,
    }
}

pub fn copy_opt(o: &Option<String>) -> (r: Option<String>)
    ensures
        opt_view(r) == opt_view(*o),
{
    match o {
        Some(s) => Some(s.clone()),
        None => None,
    }
}

impl ParamValue {
    pub fn copy(&self) -> (r: ParamValue)
        ensures
            r@ == self@,
    {
        match self {
            ParamValue::Scalar(v) => ParamValue::Scalar(v.clone()),
            ParamValue::Interval { min, max } => ParamValue::Interval {
                min: min.clone(),
                max: max.clone(),
            },
            ParamValue::EmptyInterval => ParamValue::EmptyInterval,
            ParamValue::Str(s) => ParamValue::Str(s.clone()),
        }
    }
}

/// A parameter of the model: its name, value, unit and description.
#[derive(Debug, Clone)]
pub struct Param {
    pub name: String,
    pub value: ParamValue,
    pub unit: Option<String>,
    pub description: String,
}

pub struct ParamModel {
    pub name: Seq<char>,
    pub value: ValueModel,
    pub unit: Option<Seq<char>>,
    pub description: Seq<char>,
}

impl View for Param {
    type V = ParamModel;

    open spec fn view(&self) -> ParamModel {
        ParamModel {
            name: self.name@,
            value: self.value@,
            unit: opt_view(self.unit),
            description: self.description@,
        }
    }
}

impl Param {
    pub fn copy(&self) -> (r: Param)
        ensures
            r@ == self@,
    {
        Param {
            name: self.name.clone(),
            value: self.value.copy(),
            unit: copy_opt(&self.unit),
            description: self.description.clone(),
        }
    }
}

/// A parameter that a failed test depends on, with the value it had.
#[derive(Debug, Clone)]
pub struct TestDependencyParam {
    pub name: String,
    pub value: ParamValue,
    pub unit: Option<String>,
}

pub struct DepModel {
    pub name: Seq<char>,
    pub value: ValueModel,
    pub unit: Option<Seq<char>>,
}

impl View for TestDependencyParam {
    type V = DepModel;

    open spec fn view(&self) -> DepModel {
        DepModel { name: self.name@, value: self.value@, unit: opt_view(self.unit) }
    }
}

impl TestDependencyParam {
    pub fn copy(&self) -> (r: TestDependencyParam)
        ensures
            r@ == self@,
    {
        TestDependencyParam {
            name: self.name.clone(),
            value: self.value.copy(),
            unit: copy_opt(&self.unit),
        }
    }
}

/// The models of a sequence of dependency parameters.
pub open spec fn deps_view(v: Seq<TestDependencyParam>) -> Seq<DepModel> {
    v.map_values(|p: TestDependencyParam| p@)
}

pub fn copy_deps(v: &Vec<TestDependencyParam>) -> (r: Vec<TestDependencyParam>)
    ensures
        deps_view(r@) == deps_view(v@),
{
    let mut r: Vec<TestDependencyParam> = Vec::new();
    let mut i: usize = 0;
    while i < v.len()
        invariant
            i <= v@.len(),
            deps_view(r@) == deps_view(v@.take(i as int)),
        decreases v.len() - i,
    {
        r.push(v[i].copy());
        assert(deps_view(v@.take(i + 1)) =~= deps_view(v@.take(i as int)).push(v@[i as int]@));
        assert(deps_view(r@) =~= deps_view(v@.take(i + 1)));
        i = i + 1;
    }
    assert(v@.take(v@.len() as int) =~= v@);
    r
}

/// The outcome of a test: a pass, or a failure with the parameters that it depends on.
#[derive(Debug, Clone)]
pub enum TestResult {
    Pass,
    Fail(Vec<TestDependencyParam>),
}

pub enum ResultModel {
    Pass,
    Fail(Seq<DepModel>),
}

impl View for TestResult {
    type V = ResultModel;

    open spec fn view(&self) -> ResultModel {
        match self {
            TestResult::Pass => ResultModel::Pass,
            TestResult::Fail(ps) => ResultModel::Fail(deps_view(ps@)),
        }
    }
}

impl TestResult {
    pub fn copy(&self) -> (r: TestResult)
        ensures
            r@ == self@,
    {
        match self {
            TestResult::Pass => TestResult::Pass,
            TestResult::Fail(ps) => TestResult::Fail(copy_deps(ps)),
        }
    }
}

/// A test of the model: the model it belongs to, its expression and its outcome.
#[derive(Debug, Clone)]
pub struct Test {
    pub model: String,
    pub expression: String,
    pub result: TestResult,
}

pub struct TestModel {
    pub model: Seq<char>,
    pub expression: Seq<char>,
    pub result: ResultModel,
}

impl View for Test {
    type V = TestModel;

    open spec fn view(&self) -> TestModel {
        TestModel { model: self.model@, expression: self.expression@, result: self.result@ }
    }
}

impl Test {
    pub fn copy(&self) -> (r: Test)
        ensures
            r@ == self@,
    {
        Test {
            model: self.model.clone(),
            expression: self.expression.clone(),
            result: self.result.copy(),
        }
    }
}

/// The models of a sequence of parameters.
pub open spec fn params_view(v: Seq<Param>) -> Seq<ParamModel> {
    v.map_values(|p: Param| p@)
}

/// The models of a sequence of tests.
pub open spec fn tests_view(v: Seq<Test>) -> Seq<TestModel> {
    v.map_values(|t: Test| t@)
}

/// Why output could not be read.
#[derive(Debug, Clone)]
pub enum ParseError {
    /// A line of the old output that looks like a parameter but is not one.
    OldParam { line: String },
    /// A test of the old output without a `)` after its model.
    OldTestWithoutModel { chunk: String },
    /// A test of the old output without a result line.
    OldTestWithoutResult { chunk: String },
    /// A test of the old output whose result is neither `pass` nor `fail`.
    OldTestBadResult { result: String, chunk: String },
    /// A value with a `|` of which one side is a number and the other is not.
    InvalidInterval { input: String },
    /// A line of the new output that looks like a parameter but is not one.
    NewParam { line: String },
    /// The new output has no test section.
    NoTests,
    /// A group of tests of the new output that does not name its model file.
    NewTestGroup { group: String },
    /// A test of the new output without a result line.
    NewTestWithoutResult { test: String },
    /// A test of the new output whose result is neither `PASS` nor `FAIL`.
    NewTestBadResult { result: String, test: String },
    /// A dependency of a failed test of the new output without ` = `.
    DependencyWithoutValue { line: String },
}

pub enum ErrorModel {
    OldParam { line: Seq<char> },
    OldTestWithoutModel { chunk: Seq<char> },
    OldTestWithoutResult { chunk: Seq<char> },
    OldTestBadResult { result: Seq<char>, chunk: Seq<char> },
    InvalidInterval { input: Seq<char> },
    NewParam { line: Seq<char> },
    NoTests,
    NewTestGroup { group: Seq<char> },
    NewTestWithoutResult { test: Seq<char> },
    NewTestBadResult { result: Seq<char>, test: Seq<char> },
    DependencyWithoutValue { line: Seq<char> },
}

impl View for ParseError {
    type V = ErrorModel;

    open spec fn view(&self) -> ErrorModel {
        match self {
            ParseError::OldParam { line } => ErrorModel::OldParam { line: line@ },
            ParseError::OldTestWithoutModel { chunk } => ErrorModel::OldTestWithoutModel {
                chunk: chunk@,
            },
            ParseError::OldTestWithoutResult { chunk } => ErrorModel::OldTestWithoutResult {
                chunk: chunk@,
            },
            ParseError::OldTestBadResult { result, chunk } => ErrorModel::OldTestBadResult {
                result: result@,
                chunk: chunk@,
            },
            ParseError::InvalidInterval { input } => ErrorModel::InvalidInterval { input: input@ },
            ParseError::NewParam { line } => ErrorModel::NewParam { line: line@ },
            ParseError::NoTests => ErrorModel::NoTests,
            ParseError::NewTestGroup { group } => ErrorModel::NewTestGroup { group: group@ },
            ParseError::NewTestWithoutResult { test } => ErrorModel::NewTestWithoutResult {
                test: test@,
            },
            ParseError::NewTestBadResult { result, test } => ErrorModel::NewTestBadResult {
                result: result@,
                test: test@,
            },
            ParseError::DependencyWithoutValue { line } => ErrorModel::DependencyWithoutValue {
                line: line@,
            },
        }
    }
}

/// A result, by the models of what it holds.
pub open spec fn result_view<T: View>(r: Result<T, ParseError>) -> Result<T::V, ErrorModel> {
    match r {
        Ok(t) => Ok(t@),
        Err(e) => Err(e@),
    }
}

/// A quoted text with its quotes dropped: trimmed, every `'` removed.
pub open spec fn unquote(s: Seq<char>) -> Seq<char> {
    replace(trim(s), seq!['\''], seq![])
}

/// The value that a text denotes: `<empty>`, an interval `min | max` of two numbers, a
/// number, or else a string. Where exactly one side of a `|` is a number, the text is
/// refused.
pub open spec fn value_of(input: Seq<char>) -> Result<ValueModel, ErrorModel> {
    let t = trim(input);
    if t == seq!['<', 'e', 'm', 'p', 't', 'y', '>'] {
        Ok(ValueModel::EmptyInterval)
    } else {
        match split_once(t, seq!['|']) {
            Some((a, b)) => match (number_text(a), number_text(b)) {
                (Some(x), Some(y)) => Ok(ValueModel::Interval { min: x, max: y }),
                (None, None) => Ok(ValueModel::Str(t)),
                _ => Err(ErrorModel::InvalidInterval { input: t }),
            },
            None => match number_text(t) {
                Some(x) => Ok(ValueModel::Scalar(x)),
                None => Ok(ValueModel::Str(unquote(t))),
            },
        }
    }
}

/// The text of `v[lo..hi]` with its quotes dropped.
fn parse_string(v: &[char], lo: usize, hi: usize) -> (r: String)
    requires
        lo <= hi <= v@.len(),
    ensures
        r@ == unquote(v@.subrange(lo as int, hi as int)),
{
    let (a, b) = trim_at(v, lo, hi);
    let mut t: Vec<char> = Vec::new();
    push_range(&mut t, v, a, b);
    let q = ['\''];
    let none: [char; 0] = [];
    assert(q@ =~= seq!['\'']);
    assert(none@ =~= Seq::<char>::empty());
    let u = replace_all(t.as_slice(), &q, &none);
    string_of(u.as_slice())
}

fn is_empty_marker(v: &[char], lo: usize, hi: usize) -> (r: bool)
    requires
        lo <= hi <= v@.len(),
    ensures
        r == (v@.subrange(lo as int, hi as int) == seq!['<', 'e', 'm', 'p', 't', 'y', '>']),
{
    let m = ['<', 'e', 'm', 'p', 't', 'y', '>'];
    assert(m@ =~= seq!['<', 'e', 'm', 'p', 't', 'y', '>']);
    let r = crate::text::occurs_at(v, lo, hi, &m) && hi - lo == 7;
    proof {
        if v@.subrange(lo as int, hi as int) == seq!['<', 'e', 'm', 'p', 't', 'y', '>'] {
            assert(hi - lo == 7);
        }
    }
    r
}

/// The value that `v[lo..hi]` denotes (see `value_of`).
pub fn parse_param_value(v: &[char], lo: usize, hi: usize) -> (r: Result<ParamValue, ParseError>)
    requires
        lo <= hi <= v@.len(),
    ensures
        result_view(r) == value_of(v@.subrange(lo as int, hi as int)),
{
    let ghost input = v@.subrange(lo as int, hi as int);
    let (a, b) = trim_at(v, lo, hi);
    let ghost t = v@.subrange(a as int, b as int);
    if is_empty_marker(v, a, b) {
        return Ok(ParamValue::EmptyInterval);
    }
    let bar = ['|'];
    assert(bar@ =~= seq!['|']);
    match find_in(v, a, b, &bar) {
        Some(k) => {
            assert(t.take(k - a) =~= v@.subrange(a as int, k as int));
            assert(t.skip(k - a + 1) =~= v@.subrange(k + 1, b as int));
            let min = parse_int_or_float(v, a, k);
            let max = parse_int_or_float(v, k + 1, b);
            match (min, max) {
                (Some(x), Some(y)) => Ok(
                    ParamValue::Interval { min: string_of(x.as_slice()), max: string_of(y.as_slice()) },
                ),
                (None, None) => Ok(ParamValue::Str(string_of_range(v, a, b))),
                _ => Err(ParseError::InvalidInterval { input: string_of_range(v, a, b) }),
            }
        },
        None => match parse_int_or_float(v, a, b) {
            Some(x) => {
                proof {
                    assert(trim(t) == t) by {
                        crate::text::lemma_trim_idempotent(input);
                    }
                }
                Ok(ParamValue::Scalar(string_of(x.as_slice())))
            },
            None => {
                proof {
                    crate::text::lemma_trim_idempotent(input);
                }
                Ok(ParamValue::Str(parse_string(v, a, b)))
            },
        },
    }
}

/// The position of the first occurrence of `p` in `s`, where at least one character
/// stands before it; none where `p` does not occur or starts `s`.
pub open spec fn until_nonempty(s: Seq<char>, p: Seq<char>) -> Option<int> {
    match find(s, p) {
        Some(k) => if k >= 1 {
            Some(k)
        } else {
            None
        },
        None => None,
    }
}

/// A trimmed unit: none where nothing is left.
pub open spec fn unit_of(t: Seq<char>) -> Option<Seq<char>> {
    if trim(t).len() == 0 {
        None
    } else {
        Some(trim(t))
    }
}

/// A parameter line of the old output: `name: value [unit] -- "description"`.
///
/// The value is the text up to the next space; where it is followed by `| ` and itself
/// again, it is that text as a string. At least one character must stand before the `:`,
/// the space, the `-- "` and the closing `"`.
pub open spec fn old_param(line: Seq<char>) -> Option<ParamModel> {
    match until_nonempty(line, seq![':']) {
        None => None,
        Some(i) => {
            let name = trim(line.take(i));
            let r1 = skip_blanks(line.skip(i + 1));
            match until_nonempty(r1, seq![' ']) {
                None => None,
                Some(j) => {
                    let value_str = r1.take(j);
                    let r2 = r1.skip(j + 1);
                    let (value, r3) = match strip_prefix(r2, seq!['|', ' '] + value_str) {
                        Some(rest) => (Ok(ValueModel::Str(value_str)), rest),
                        None => (value_of(value_str), r2),
                    };
                    match value {
                        Err(_) => None,
                        Ok(value) => match until_nonempty(r3, seq!['-', '-', ' ', '"']) {
                            None => None,
                            Some(k) => {
                                let r4 = r3.skip(k + 4);
                                match until_nonempty(r4, seq!['"']) {
                                    None => None,
                                    Some(m) => Some(
                                        ParamModel {
                                            name,
                                            value,
                                            unit: unit_of(r3.take(k)),
                                            description: trim(r4.take(m)),
                                        },
                                    ),
                                }
                            },
                        },
                    }
                },
            }
        },
    }
}

/// `find_in`, where the occurrence must not start the range.
fn until_nonempty_at(v: &[char], lo: usize, hi: usize, p: &[char]) -> (r: Option<usize>)
    requires
        lo <= hi <= v@.len(),
    ensures
        match r {
            Some(k) => lo < k && k + p@.len() <= hi && until_nonempty(
                v@.subrange(lo as int, hi as int),
                p@,
            ) == Some(k - lo),
            None => until_nonempty(v@.subrange(lo as int, hi as int), p@) is None,
        },
{
    match find_in(v, lo, hi, p) {
        Some(k) => if k > lo {
            Some(k)
        } else {
            None
        },
        None => None,
    }
}

/// An optional unit from `v[lo..hi]`, trimmed; none where nothing is left.
fn unit_at(v: &[char], lo: usize, hi: usize) -> (r: Option<String>)
    requires
        lo <= hi <= v@.len(),
    ensures
        opt_view(r) == unit_of(v@.subrange(lo as int, hi as int)),
{
    let (a, b) = trim_at(v, lo, hi);
    if a == b {
        None
    } else {
        Some(string_of_range(v, a, b))
    }
}

/// The trimmed text of `v[lo..hi]`.
fn trimmed_string(v: &[char], lo: usize, hi: usize) -> (r: String)
    requires
        lo <= hi <= v@.len(),
    ensures
        r@ == trim(v@.subrange(lo as int, hi as int)),
{
    let (a, b) = trim_at(v, lo, hi);
    string_of_range(v, a, b)
}

/// Reads a parameter line of the old output (see `old_param`).
pub fn parse_old_param(v: &[char], lo: usize, hi: usize) -> (r: Result<Param, ParseError>)
    requires
        lo <= hi <= v@.len(),
    ensures
        match r {
            Ok(p) => old_param(v@.subrange(lo as int, hi as int)) == Some(p@),
            Err(e) => old_param(v@.subrange(lo as int, hi as int)) is None && e@
                == (ErrorModel::OldParam { line: v@.subrange(lo as int, hi as int) }),
        },
{
    let ghost line = v@.subrange(lo as int, hi as int);
    let colon = [':'];
    let space = [' '];
    let bar = ['|', ' '];
    let dashes = ['-', '-', ' ', '"'];
    let quote = ['"'];
    assert(colon@ =~= seq![':']);
    assert(space@ =~= seq![' ']);
    assert(bar@ =~= seq!['|', ' ']);
    assert(dashes@ =~= seq!['-', '-', ' ', '"']);
    assert(quote@ =~= seq!['"']);
    let fail = ParseError::OldParam { line: string_of_range(v, lo, hi) };
    let i = match until_nonempty_at(v, lo, hi, &colon) {
        Some(i) => i,
        None => return Err(fail),
    };
    assert(line.take(i - lo) =~= v@.subrange(lo as int, i as int));
    assert(line.skip(i - lo + 1) =~= v@.subrange(i + 1, hi as int));
    let name = trimmed_string(v, lo, i);
    let a1 = skip_blanks_at(v, i + 1, hi);
    let ghost r1 = v@.subrange(a1 as int, hi as int);
    let j = match until_nonempty_at(v, a1, hi, &space) {
        Some(j) => j,
        None => return Err(fail),
    };
    assert(r1.take(j - a1) =~= v@.subrange(a1 as int, j as int));
    assert(r1.skip(j - a1 + 1) =~= v@.subrange(j + 1, hi as int));
    let mut prefix: Vec<char> = Vec::new();
    push_all(&mut prefix, &bar);
    push_range(&mut prefix, v, a1, j);
    let (value, a3) = if starts_with_at(v, j + 1, hi, prefix.as_slice()) {
        assert(v@.subrange(j + 1, hi as int).skip(prefix@.len() as int) =~= v@.subrange(
            j + 1 + prefix@.len(),
            hi as int,
        ));
        (ParamValue::Str(string_of_range(v, a1, j)), j + 1 + prefix.len())
    } else {
        match parse_param_value(v, a1, j) {
            Ok(value) => (value, j + 1),
            Err(_) => return Err(fail),
        }
    };
    let ghost r3 = v@.subrange(a3 as int, hi as int);
    let k = match until_nonempty_at(v, a3, hi, &dashes) {
        Some(k) => k,
        None => return Err(fail),
    };
    assert(r3.take(k - a3) =~= v@.subrange(a3 as int, k as int));
    assert(r3.skip(k - a3 + 4) =~= v@.subrange(k + 4, hi as int));
    let unit = unit_at(v, a3, k);
    let a4 = k + 4;
    let ghost r4 = v@.subrange(a4 as int, hi as int);
    let m = match until_nonempty_at(v, a4, hi, &quote) {
        Some(m) => m,
        None => return Err(fail),
    };
    assert(r4.take(m - a4) =~= v@.subrange(a4 as int, m as int));
    let description = trimmed_string(v, a4, m);
    Ok(Param { name, value, unit, description })
}

/// The values of a sequence of results, or the first error among them (what collecting
/// an iterator of results into a `Result` gives).
pub open spec fn gather<A>(rs: Seq<Result<A, ErrorModel>>) -> Result<Seq<A>, ErrorModel>
    decreases rs.len(),
{
    if rs.len() == 0 {
        Ok(seq![])
    } else {
        match gather(rs.drop_last()) {
            Err(e) => Err(e),
            Ok(xs) => match rs.last() {
                Err(e) => Err(e),
                Ok(x) => Ok(xs.push(x)),
            },
        }
    }
}

/// The values that a sequence of options holds, in order (what flattening gives).
pub open spec fn somes<A>(s: Seq<Option<A>>) -> Seq<A>
    decreases s.len(),
{
    if s.len() == 0 {
        seq![]
    } else {
        match s.last() {
            Some(x) => somes(s.drop_last()).push(x),
            None => somes(s.drop_last()),
        }
    }
}

/// The sequences of a sequence, one after another.
pub open spec fn joined<A>(s: Seq<Seq<A>>) -> Seq<A>
    decreases s.len(),
{
    if s.len() == 0 {
        seq![]
    } else {
        joined(s.drop_last()) + s.last()
    }
}

/// Once a prefix of the results holds an error, that error is what they all give.
pub proof fn lemma_gather_err<A>(rs: Seq<Result<A, ErrorModel>>, i: int)
    requires
        0 <= i <= rs.len(),
        gather(rs.take(i)) is Err,
    ensures
        gather(rs) == gather(rs.take(i)),
    decreases rs.len() - i,
{
    if i < rs.len() {
        assert(rs.take(i + 1).drop_last() =~= rs.take(i));
        lemma_gather_err(rs, i + 1);
    } else {
        assert(rs.take(i) =~= rs);
    }
}

/// A text split at the first `sep` into a value and a unit, both trimmed.
pub open spec fn split_value_unit(s: Seq<char>, sep: Seq<char>) -> (Seq<char>, Option<Seq<char>>) {
    match split_once(s, sep) {
        Some((x, u)) => (trim(x), Some(trim(u))),
        None => (trim(s), None),
    }
}

/// `split_value_unit` of `v[lo..hi]`, as ranges of `v`.
fn split_value_unit_at(v: &[char], lo: usize, hi: usize, sep: &[char]) -> (r: (
    (usize, usize),
    Option<(usize, usize)>,
))
    requires
        lo <= hi <= v@.len(),
    ensures
        lo <= r.0.0 <= r.0.1 <= hi,
        v@.subrange(r.0.0 as int, r.0.1 as int) == split_value_unit(
            v@.subrange(lo as int, hi as int),
            sep@,
        ).0,
        match r.1 {
            Some(u) => lo <= u.0 <= u.1 <= hi && split_value_unit(
                v@.subrange(lo as int, hi as int),
                sep@,
            ).1 == Some(v@.subrange(u.0 as int, u.1 as int)),
            None => split_value_unit(v@.subrange(lo as int, hi as int), sep@).1 is None,
        },
{
    let ghost s = v@.subrange(lo as int, hi as int);
    match find_in(v, lo, hi, sep) {
        Some(k) => {
            assert(s.take(k - lo) =~= v@.subrange(lo as int, k as int));
            assert(s.skip(k - lo + sep@.len()) =~= v@.subrange(k + sep@.len(), hi as int));
            let x = trim_at(v, lo, k);
            let u = trim_at(v, k + sep.len(), hi);
            (x, Some(u))
        },
        None => (trim_at(v, lo, hi), None),
    }
}

/// A dependency line of a failed old test: `name: value [unit]`; a line without `:`
/// holds none.
pub open spec fn old_dep(line: Seq<char>) -> Result<Option<DepModel>, ErrorModel> {
    match split_once(line, seq![':']) {
        None => Ok(None),
        Some((n, r)) => {
            let (vs, unit) = split_value_unit(trim(r), seq![' ']);
            match value_of(vs) {
                Err(e) => Err(e),
                Ok(value) => Ok(Some(DepModel { name: trim(n), value, unit })),
            }
        },
    }
}

/// An optional range of `v` as a string.
fn opt_string(v: &[char], u: Option<(usize, usize)>) -> (r: Option<String>)
    requires
        u matches Some(x) ==> x.0 <= x.1 <= v@.len(),
    ensures
        opt_view(r) == match u {
            Some(x) => Some(v@.subrange(x.0 as int, x.1 as int)),
            None => None,
        },
{
    match u {
        Some(x) => Some(string_of_range(v, x.0, x.1)),
        None => None,
    }
}

/// Reads a dependency line of a failed old test (see `old_dep`).
fn parse_old_test_dependency_param(v: &[char], lo: usize, hi: usize) -> (r: Result<
    Option<TestDependencyParam>,
    ParseError,
>)
    requires
        lo <= hi <= v@.len(),
    ensures
        dep_result_view(r) == old_dep(v@.subrange(lo as int, hi as int)),
{
    let ghost line = v@.subrange(lo as int, hi as int);
    let colon = [':'];
    let space = [' '];
    assert(colon@ =~= seq![':']);
    assert(space@ =~= seq![' ']);
    let k = match find_in(v, lo, hi, &colon) {
        Some(k) => k,
        None => return Ok(None),
    };
    assert(line.take(k - lo) =~= v@.subrange(lo as int, k as int));
    assert(line.skip(k - lo + 1) =~= v@.subrange(k + 1, hi as int));
    let name = trimmed_string(v, lo, k);
    let (a, b) = trim_at(v, k + 1, hi);
    let (vr, ur) = split_value_unit_at(v, a, b, &space);
    let unit = opt_string(v, ur);
    match parse_param_value(v, vr.0, vr.1) {
        Ok(value) => Ok(Some(TestDependencyParam { name, value, unit })),
        Err(e) => Err(e),
    }
}

/// The model of what reading a dependency line gives.
pub open spec fn dep_result_view(r: Result<Option<TestDependencyParam>, ParseError>) -> Result<
    Option<DepModel>,
    ErrorModel,
> {
    match r {
        Ok(Some(d)) => Ok(Some(d@)),
        Ok(None) => Ok(None),
        Err(e) => Err(e@),
    }
}

/// The dependencies that the lines of `s` list, read by `f`; the first error stops it.
pub open spec fn deps_of(s: Seq<char>, f: spec_fn(Seq<char>) -> Result<Option<DepModel>, ErrorModel>) -> Result<
    Seq<DepModel>,
    ErrorModel,
> {
    match gather(lines(s).map_values(f)) {
        Ok(xs) => Ok(somes(xs)),
        Err(e) => Err(e),
    }
}

/// A dependency line of a failed new test: `- name = value [:unit]`; a blank line holds
/// none. Where the line (its indentation skipped) does not start with `- `, it is read
/// whole.
pub open spec fn new_dep(line: Seq<char>) -> Result<Option<DepModel>, ErrorModel> {
    if trim(line).len() == 0 {
        Ok(None)
    } else {
        let l = match strip_prefix(trim_start(line), seq!['-', ' ']) {
            Some(x) => x,
            None => line,
        };
        match split_once(l, seq![' ', '=', ' ']) {
            None => Err(ErrorModel::DependencyWithoutValue { line: l }),
            Some((n, r)) => {
                let (vs, unit) = split_value_unit(trim(r), seq![' ', ':']);
                match value_of(vs) {
                    Err(e) => Err(e),
                    Ok(value) => Ok(Some(DepModel { name: trim(n), value, unit })),
                }
            },
        }
    }
}

/// Reads a dependency line of a failed new test (see `new_dep`).
fn parse_new_test_dependency_param(v: &[char], lo: usize, hi: usize) -> (r: Result<
    Option<TestDependencyParam>,
    ParseError,
>)
    requires
        lo <= hi <= v@.len(),
    ensures
        dep_result_view(r) == new_dep(v@.subrange(lo as int, hi as int)),
{
    let ghost line = v@.subrange(lo as int, hi as int);
    let (ta, tb) = trim_at(v, lo, hi);
    if ta == tb {
        return Ok(None);
    }
    let dash = ['-', ' '];
    let eq = [' ', '=', ' '];
    let space_colon = [' ', ':'];
    assert(dash@ =~= seq!['-', ' ']);
    assert(eq@ =~= seq![' ', '=', ' ']);
    assert(space_colon@ =~= seq![' ', ':']);
    let s = crate::text::trim_start_at(v, lo, hi);
    let start = if starts_with_at(v, s, hi, &dash) {
        assert(v@.subrange(s as int, hi as int).skip(2) =~= v@.subrange(s + 2, hi as int));
        s + 2
    } else {
        lo
    };
    let ghost l = v@.subrange(start as int, hi as int);
    let k = match find_in(v, start, hi, &eq) {
        Some(k) => k,
        None => return Err(ParseError::DependencyWithoutValue { line: string_of_range(v, start, hi) }),
    };
    assert(l.take(k - start) =~= v@.subrange(start as int, k as int));
    assert(l.skip(k - start + 3) =~= v@.subrange(k + 3, hi as int));
    let name = trimmed_string(v, start, k);
    let (a, b) = trim_at(v, k + 3, hi);
    let (vr, ur) = split_value_unit_at(v, a, b, &space_colon);
    let unit = opt_string(v, ur);
    match parse_param_value(v, vr.0, vr.1) {
        Ok(value) => Ok(Some(TestDependencyParam { name, value, unit })),
        Err(e) => Err(e),
    }
}

/// Reads the dependency lines of `v[lo..hi]`, in the old format or the new one.
fn parse_deps(v: &[char], lo: usize, hi: usize, old: bool) -> (r: Result<
    Vec<TestDependencyParam>,
    ParseError,
>)
    requires
        lo <= hi <= v@.len(),
    ensures
        match r {
            Ok(ds) => deps_of(
                v@.subrange(lo as int, hi as int),
                if old { |l: Seq<char>| old_dep(l) } else { |l: Seq<char>| new_dep(l) },
            ) == Ok::<Seq<DepModel>, ErrorModel>(deps_view(ds@)),
            Err(e) => deps_of(
                v@.subrange(lo as int, hi as int),
                if old { |l: Seq<char>| old_dep(l) } else { |l: Seq<char>| new_dep(l) },
            ) == Err::<Seq<DepModel>, ErrorModel>(e@),
        },
{
    let ghost f: spec_fn(Seq<char>) -> Result<Option<DepModel>, ErrorModel> = if old {
        |l: Seq<char>| old_dep(l)
    } else {
        |l: Seq<char>| new_dep(l)
    };
    let ranges = crate::text::line_ranges(v, lo, hi);
    let ghost rs = lines(v@.subrange(lo as int, hi as int)).map_values(f);
    let mut out: Vec<TestDependencyParam> = Vec::new();
    let ghost mut xs: Seq<Option<DepModel>> = seq![];
    let mut i: usize = 0;
    assert(gather(rs.take(0)) == Ok::<Seq<Option<DepModel>>, ErrorModel>(seq![])) by {
        assert(rs.take(0) =~= Seq::<Result<Option<DepModel>, ErrorModel>>::empty());
    }
    while i < ranges.len()
        invariant
            i <= ranges@.len(),
            lo <= hi <= v@.len(),
            crate::text::ranges_within(ranges@, lo as int, hi as int),
            crate::text::pieces(v@, ranges@) == lines(v@.subrange(lo as int, hi as int)),
            rs == lines(v@.subrange(lo as int, hi as int)).map_values(f),
            f == (if old { |l: Seq<char>| old_dep(l) } else { |l: Seq<char>| new_dep(l) }),
            gather(rs.take(i as int)) == Ok::<Seq<Option<DepModel>>, ErrorModel>(xs),
            somes(xs) == deps_view(out@),
        decreases ranges.len() - i,
    {
        let (a, b) = ranges[i];
        assert(crate::text::pieces(v@, ranges@)[i as int] == v@.subrange(a as int, b as int));
        let d = if old {
            parse_old_test_dependency_param(v, a, b)
        } else {
            parse_new_test_dependency_param(v, a, b)
        };
        assert(rs[i as int] == dep_result_view(d));
        assert(rs.take(i + 1).drop_last() =~= rs.take(i as int));
        match d {
            Ok(Some(p)) => {
                proof {
                    let old_xs = xs;
                    xs = xs.push(Some(p@));
                    assert(xs.drop_last() =~= old_xs);
                }
                out.push(p);
                assert(deps_view(out@) =~= deps_view(out@.drop_last()).push(p@));
            },
            Ok(None) => {
                proof {
                    let old_xs = xs;
                    xs = xs.push(None);
                    assert(xs.drop_last() =~= old_xs);
                }
            },
            Err(e) => {
                proof {
                    lemma_gather_err(rs, i + 1);
                }
                return Err(e);
            },
        }
        i = i + 1;
    }
    assert(rs.take(i as int) =~= rs);
    Ok(out)
}

/// The first line of `s` and what follows it; all of `s` where it has one line.
pub open spec fn first_line(s: Seq<char>) -> (Seq<char>, Seq<char>) {
    match split_once(s, seq!['\n']) {
        Some(p) => p,
        None => (s, seq![]),
    }
}

pub open spec fn old_result_mark() -> Seq<char> {
    seq!['\n', '\t', 'R', 'e', 's', 'u', 'l', 't', ':', ' ']
}

/// An expression of the old output in the notation of the new one: `par_` dropped and
/// `**` written `^`.
pub open spec fn old_expression(e: Seq<char>) -> Seq<char> {
    replace(replace(trim(e), seq!['p', 'a', 'r', '_'], seq![]), seq!['*', '*'], seq!['^'])
}

/// A test of the old output: `model): expression`, then `\n\tResult: ` and `pass` or
/// `fail`, the lines after a failure listing the dependencies.
pub open spec fn old_test(chunk: Seq<char>) -> Result<TestModel, ErrorModel> {
    let c = trim_start(chunk);
    match split_once(c, seq![')']) {
        None => Err(ErrorModel::OldTestWithoutModel { chunk: c }),
        Some((m, rest)) => {
            let rest1 = trim_start(
                match strip_prefix(rest, seq![':']) {
                    Some(r) => r,
                    None => rest,
                },
            );
            match split_once(rest1, old_result_mark()) {
                None => Err(ErrorModel::OldTestWithoutResult { chunk: c }),
                Some((e, rest2)) => {
                    let (rs, rest3) = first_line(rest2);
                    let res = trim(rs);
                    if res == seq!['p', 'a', 's', 's'] {
                        Ok(
                            TestModel {
                                model: trim(m),
                                expression: old_expression(e),
                                result: ResultModel::Pass,
                            },
                        )
                    } else if res == seq!['f', 'a', 'i', 'l'] {
                        match deps_of(rest3, |l: Seq<char>| old_dep(l)) {
                            Err(err) => Err(err),
                            Ok(ds) => Ok(
                                TestModel {
                                    model: trim(m),
                                    expression: old_expression(e),
                                    result: ResultModel::Fail(ds),
                                },
                            ),
                        }
                    } else {
                        Err(ErrorModel::OldTestBadResult { result: res, chunk: c })
                    }
                },
            }
        },
    }
}

/// Whether `v[lo..hi]` is the text `w`.
fn range_is(v: &[char], lo: usize, hi: usize, w: &[char]) -> (r: bool)
    requires
        lo <= hi <= v@.len(),
    ensures
        r == (v@.subrange(lo as int, hi as int) == w@),
{
    let r = hi - lo == w.len() && crate::text::occurs_at(v, lo, hi, w);
    proof {
        if v@.subrange(lo as int, hi as int) == w@ {
            assert(hi - lo == w@.len());
        }
    }
    r
}

/// `first_line` of `v[lo..hi]`, as ranges: the line ends at `.0`, what follows starts at `.1`.
fn first_line_at(v: &[char], lo: usize, hi: usize) -> (r: (usize, usize))
    requires
        lo <= hi <= v@.len(),
    ensures
        lo <= r.0 <= r.1 <= hi,
        first_line(v@.subrange(lo as int, hi as int)) == (
            v@.subrange(lo as int, r.0 as int),
            v@.subrange(r.1 as int, hi as int),
        ),
{
    let ghost s = v@.subrange(lo as int, hi as int);
    let nl = ['\n'];
    assert(nl@ =~= seq!['\n']);
    match find_in(v, lo, hi, &nl) {
        Some(k) => {
            assert(s.take(k - lo) =~= v@.subrange(lo as int, k as int));
            assert(s.skip(k - lo + 1) =~= v@.subrange(k + 1, hi as int));
            (k, k + 1)
        },
        None => {
            assert(s =~= v@.subrange(lo as int, hi as int));
            assert(v@.subrange(hi as int, hi as int) =~= Seq::<char>::empty());
            (hi, hi)
        },
    }
}

/// Reads a test of the old output (see `old_test`).
fn parse_old_test(v: &[char], lo: usize, hi: usize) -> (r: Result<Test, ParseError>)
    requires
        lo <= hi <= v@.len(),
    ensures
        result_view(r) == old_test(v@.subrange(lo as int, hi as int)),
{
    let ghost chunk = v@.subrange(lo as int, hi as int);
    let paren = [')'];
    let colon = [':'];
    let mark = ['\n', '\t', 'R', 'e', 's', 'u', 'l', 't', ':', ' '];
    let pass = ['p', 'a', 's', 's'];
    let fail = ['f', 'a', 'i', 'l'];
    let par = ['p', 'a', 'r', '_'];
    let none: [char; 0] = [];
    let stars = ['*', '*'];
    let caret = ['^'];
    assert(paren@ =~= seq![')']);
    assert(colon@ =~= seq![':']);
    assert(mark@ =~= old_result_mark());
    assert(pass@ =~= seq!['p', 'a', 's', 's']);
    assert(fail@ =~= seq!['f', 'a', 'i', 'l']);
    assert(par@ =~= seq!['p', 'a', 'r', '_']);
    assert(none@ =~= Seq::<char>::empty());
    assert(stars@ =~= seq!['*', '*']);
    assert(caret@ =~= seq!['^']);
    let c = crate::text::trim_start_at(v, lo, hi);
    let ghost cs = v@.subrange(c as int, hi as int);
    let k = match find_in(v, c, hi, &paren) {
        Some(k) => k,
        None => return Err(ParseError::OldTestWithoutModel { chunk: string_of_range(v, c, hi) }),
    };
    assert(cs.take(k - c) =~= v@.subrange(c as int, k as int));
    assert(cs.skip(k - c + 1) =~= v@.subrange(k + 1, hi as int));
    let model = trimmed_string(v, c, k);
    let after = if starts_with_at(v, k + 1, hi, &colon) {
        assert(v@.subrange(k + 1, hi as int).skip(1) =~= v@.subrange(k + 2, hi as int));
        k + 2
    } else {
        k + 1
    };
    let r1 = crate::text::trim_start_at(v, after, hi);
    let ghost rest1 = v@.subrange(r1 as int, hi as int);
    let e = match find_in(v, r1, hi, &mark) {
        Some(e) => e,
        None => return Err(ParseError::OldTestWithoutResult { chunk: string_of_range(v, c, hi) }),
    };
    assert(rest1.take(e - r1) =~= v@.subrange(r1 as int, e as int));
    assert(rest1.skip(e - r1 + 10) =~= v@.subrange(e + 10, hi as int));
    let (ea, eb) = trim_at(v, r1, e);
    let mut ex: Vec<char> = Vec::new();
    push_range(&mut ex, v, ea, eb);
    let ex1 = replace_all(ex.as_slice(), &par, &none);
    let ex2 = replace_all(ex1.as_slice(), &stars, &caret);
    let expression = string_of(ex2.as_slice());
    let (le, rs) = first_line_at(v, e + 10, hi);
    let (ra, rb) = trim_at(v, e + 10, le);
    if range_is(v, ra, rb, &pass) {
        Ok(Test { model, expression, result: TestResult::Pass })
    } else if range_is(v, ra, rb, &fail) {
        match parse_deps(v, rs, hi, true) {
            Ok(ds) => Ok(Test { model, expression, result: TestResult::Fail(ds) }),
            Err(err) => Err(err),
        }
    } else {
        Err(
            ParseError::OldTestBadResult {
                result: string_of_range(v, ra, rb),
                chunk: string_of_range(v, c, hi),
            },
        )
    }
}

/// A line of the old output: a parameter where it holds `-- "`, else nothing.
pub open spec fn old_param_line(l: Seq<char>) -> Result<Option<ParamModel>, ErrorModel> {
    if contains(l, seq!['-', '-', ' ', '"']) {
        match old_param(l) {
            Some(p) => Ok(Some(p)),
            None => Err(ErrorModel::OldParam { line: l }),
        }
    } else {
        Ok(None)
    }
}

pub open spec fn old_test_mark() -> Seq<char> {
    seq!['\n', 'T', 'e', 's', 't', ' ', '(']
}

/// What the old output holds: the parameters of its parameter lines, then the tests that
/// follow each `\nTest (`. The first line or test that cannot be read stops it.
pub open spec fn old_output(o: Seq<char>) -> Result<(Seq<ParamModel>, Seq<TestModel>), ErrorModel> {
    match gather(lines(o).map_values(|l: Seq<char>| old_param_line(l))) {
        Err(e) => Err(e),
        Ok(ps) => match gather(split(o, old_test_mark()).skip(1).map_values(|c: Seq<char>| old_test(c))) {
            Err(e) => Err(e),
            Ok(ts) => Ok((somes(ps), ts)),
        },
    }
}

/// Which lines are parameter lines, and how parameter lines are read.
#[derive(Clone, Copy)]
pub enum Format {
    Old,
    New,
}

/// A line of the output in the given format, read as a parameter where it is one.
pub open spec fn param_line(format: Format, l: Seq<char>) -> Result<Option<ParamModel>, ErrorModel> {
    match format {
        Format::Old => old_param_line(l),
        Format::New => new_param_line(l),
    }
}

/// Reads the parameter lines of `v`.
fn parse_param_lines(v: &[char], format: Format) -> (r: Result<Vec<Param>, ParseError>)
    ensures
        match r {
            Ok(ps) => gather(
                lines(v@).map_values(
                    |l: Seq<char>| param_line(format, l),
                ),
            ) matches Ok(xs) && somes(xs) == params_view(ps@),
            Err(e) => gather(
                lines(v@).map_values(
                    |l: Seq<char>| param_line(format, l),
                ),
            ) == Err::<Seq<Option<ParamModel>>, ErrorModel>(e@),
        },
{
    let ghost f = |l: Seq<char>| param_line(format, l);
    assert(v@.subrange(0, v@.len() as int) =~= v@);
    let ranges = crate::text::line_ranges(v, 0, v.len());
    let ghost rs = lines(v@).map_values(f);
    let mut out: Vec<Param> = Vec::new();
    let ghost mut xs: Seq<Option<ParamModel>> = seq![];
    let mut i: usize = 0;
    let mark = ['-', '-', ' ', '"'];
    let hash = ['#'];
    assert(mark@ =~= seq!['-', '-', ' ', '"']);
    assert(hash@ =~= seq!['#']);
    assert(rs.take(0) =~= Seq::<Result<Option<ParamModel>, ErrorModel>>::empty());
    while i < ranges.len()
        invariant
            i <= ranges@.len(),
            crate::text::ranges_within(ranges@, 0, v@.len() as int),
            crate::text::pieces(v@, ranges@) == lines(v@),
            rs == lines(v@).map_values(f),
            f == (|l: Seq<char>| param_line(format, l)),
            mark@ == seq!['-', '-', ' ', '"'],
            hash@ == seq!['#'],
            gather(rs.take(i as int)) == Ok::<Seq<Option<ParamModel>>, ErrorModel>(xs),
            somes(xs) == params_view(out@),
        decreases ranges.len() - i,
    {
        let (a, b) = ranges[i];
        let ghost l = v@.subrange(a as int, b as int);
        assert(crate::text::pieces(v@, ranges@)[i as int] == l);
        assert(rs[i as int] == param_line(format, l));
        assert(rs.take(i + 1).drop_last() =~= rs.take(i as int));
        let is_param = match format {
            Format::Old => find_in(v, a, b, &mark).is_some(),
            Format::New => find_in(v, a, b, &hash).is_some(),
        };
        if is_param {
            let p = match format {
                Format::Old => parse_old_param(v, a, b),
                Format::New => parse_new_param(v, a, b),
            };
            match p {
                Ok(p) => {
                    proof {
                        let old_xs = xs;
                        xs = xs.push(Some(p@));
                        assert(xs.drop_last() =~= old_xs);
                    }
                    out.push(p);
                    assert(params_view(out@) =~= params_view(out@.drop_last()).push(p@));
                },
                Err(e) => {
                    proof {
                        lemma_gather_err(rs, i + 1);
                    }
                    return Err(e);
                },
            }
        } else {
            proof {
                let old_xs = xs;
                xs = xs.push(None);
                assert(xs.drop_last() =~= old_xs);
            }
        }
        i = i + 1;
    }
    assert(rs.take(i as int) =~= rs);
    Ok(out)
}

/// Reads the output of the old runner (see `old_output`).
pub fn parse_old_output(output: &str) -> (r: Result<(Vec<Param>, Vec<Test>), ParseError>)
    ensures
        match r {
            Ok((ps, ts)) => old_output(output@) == Ok::<
                (Seq<ParamModel>, Seq<TestModel>),
                ErrorModel,
            >((params_view(ps@), tests_view(ts@))),
            Err(e) => old_output(output@) == Err::<
                (Seq<ParamModel>, Seq<TestModel>),
                ErrorModel,
            >(e@),
        },
{
    let v = crate::text::chars_of(output);
    let params = match parse_param_lines(v.as_slice(), Format::Old) {
        Ok(ps) => ps,
        Err(e) => {
            proof {
                assert(lines(v@).map_values(|l: Seq<char>| param_line(Format::Old, l)) =~= lines(
                    v@,
                ).map_values(|l: Seq<char>| old_param_line(l)));
            }
            return Err(e);
        },
    };
    proof {
        assert(lines(v@).map_values(|l: Seq<char>| param_line(Format::Old, l)) =~= lines(
            v@,
        ).map_values(|l: Seq<char>| old_param_line(l)));
    }
    let mark = ['\n', 'T', 'e', 's', 't', ' ', '('];
    assert(mark@ =~= old_test_mark());
    assert(v@.subrange(0, v@.len() as int) =~= v@);
    let chunks = crate::text::split_at_pattern(v.as_slice(), 0, v.len(), &mark);
    let ghost rs = split(v@, old_test_mark()).skip(1).map_values(|c: Seq<char>| old_test(c));
    let mut tests: Vec<Test> = Vec::new();
    let mut i: usize = 1;
    proof {
        assert(rs.take(0) =~= Seq::<Result<TestModel, ErrorModel>>::empty());
        assert(tests_view(tests@) =~= Seq::<TestModel>::empty());
        assert(chunks@.len() >= 1) by {
            crate::text::lemma_split_nonempty(v@, old_test_mark());
        }
    }
    while i < chunks.len()
        invariant
            1 <= i <= chunks@.len(),
            crate::text::ranges_within(chunks@, 0, v@.len() as int),
            crate::text::pieces(v@, chunks@) == split(v@, old_test_mark()),
            rs == split(v@, old_test_mark()).skip(1).map_values(|c: Seq<char>| old_test(c)),
            v@ == output@,
            gather(lines(v@).map_values(|l: Seq<char>| old_param_line(l))) matches Ok(xs) && somes(
                xs,
            ) == params_view(params@),
            gather(rs.take(i - 1)) == Ok::<Seq<TestModel>, ErrorModel>(tests_view(tests@)),
        decreases chunks.len() - i,
    {
        let (a, b) = chunks[i];
        assert(crate::text::pieces(v@, chunks@)[i as int] == v@.subrange(a as int, b as int));
        assert(rs[i - 1] == old_test(v@.subrange(a as int, b as int)));
        assert(rs.take(i as int).drop_last() =~= rs.take(i - 1));
        assert(rs.take(i as int).last() == rs[i - 1]);
        let ghost before = tests@;
        match parse_old_test(v.as_slice(), a, b) {
            Ok(t) => {
                let ghost tv = t@;
                tests.push(t);
                assert(tests_view(tests@) =~= tests_view(before).push(tv));
            },
            Err(e) => {
                proof {
                    lemma_gather_err(rs, i as int);
                }
                return Err(e);
            },
        }
        i = i + 1;
    }
    assert(rs.take(i - 1) =~= rs);
    Ok((params, tests))
}

/// A parameter line of the new output: `name = value [:unit] # description`. At least
/// one character must stand before the `=` and before the `#`.
pub open spec fn new_param(line: Seq<char>) -> Option<ParamModel> {
    match until_nonempty(line, seq!['=']) {
        None => None,
        Some(i) => {
            let r1 = skip_blanks(line.skip(i + 1));
            match until_nonempty(r1, seq!['#']) {
                None => None,
                Some(j) => {
                    let (vs, unit) = split_value_unit(trim(r1.take(j)), seq![':']);
                    match value_of(vs) {
                        Err(_) => None,
                        Ok(value) => Some(
                            ParamModel {
                                name: trim(line.take(i)),
                                value,
                                unit,
                                description: trim(skip_blanks(r1.skip(j + 1))),
                            },
                        ),
                    }
                },
            }
        },
    }
}

/// A line of the new output: a parameter where it holds `#`, else nothing.
pub open spec fn new_param_line(l: Seq<char>) -> Result<Option<ParamModel>, ErrorModel> {
    if contains(l, seq!['#']) {
        match new_param(l) {
            Some(p) => Ok(Some(p)),
            None => Err(ErrorModel::NewParam { line: l }),
        }
    } else {
        Ok(None)
    }
}

/// Reads a parameter line of the new output (see `new_param`).
pub fn parse_new_param(v: &[char], lo: usize, hi: usize) -> (r: Result<Param, ParseError>)
    requires
        lo <= hi <= v@.len(),
    ensures
        match r {
            Ok(p) => new_param(v@.subrange(lo as int, hi as int)) == Some(p@),
            Err(e) => new_param(v@.subrange(lo as int, hi as int)) is None && e@
                == (ErrorModel::NewParam { line: v@.subrange(lo as int, hi as int) }),
        },
{
    let ghost line = v@.subrange(lo as int, hi as int);
    let eq = ['='];
    let hash = ['#'];
    let colon = [':'];
    assert(eq@ =~= seq!['=']);
    assert(hash@ =~= seq!['#']);
    assert(colon@ =~= seq![':']);
    let fail = ParseError::NewParam { line: string_of_range(v, lo, hi) };
    let i = match until_nonempty_at(v, lo, hi, &eq) {
        Some(i) => i,
        None => return Err(fail),
    };
    assert(line.take(i - lo) =~= v@.subrange(lo as int, i as int));
    assert(line.skip(i - lo + 1) =~= v@.subrange(i + 1, hi as int));
    let name = trimmed_string(v, lo, i);
    let a1 = skip_blanks_at(v, i + 1, hi);
    let ghost r1 = v@.subrange(a1 as int, hi as int);
    let j = match until_nonempty_at(v, a1, hi, &hash) {
        Some(j) => j,
        None => return Err(fail),
    };
    assert(r1.take(j - a1) =~= v@.subrange(a1 as int, j as int));
    assert(r1.skip(j - a1 + 1) =~= v@.subrange(j + 1, hi as int));
    let (ta, tb) = trim_at(v, a1, j);
    let (vr, ur) = split_value_unit_at(v, ta, tb, &colon);
    let unit = opt_string(v, ur);
    let value = match parse_param_value(v, vr.0, vr.1) {
        Ok(value) => value,
        Err(_) => return Err(fail),
    };
    let d = skip_blanks_at(v, j + 1, hi);
    let description = trimmed_string(v, d, hi);
    Ok(Param { name, value, unit, description })
}

pub open spec fn new_result_mark() -> Seq<char> {
    seq!['\n', ' ', ' ', 'R', 'e', 's', 'u', 'l', 't', ':', ' ']
}

/// A test of the new output within its model's group: `expression`, then
/// `\n  Result: ` and `PASS` or `FAIL`, the lines after a failure listing the dependencies.
pub open spec fn new_test(model: Seq<char>, t: Seq<char>) -> Result<TestModel, ErrorModel> {
    match split_once(t, new_result_mark()) {
        None => Err(ErrorModel::NewTestWithoutResult { test: t }),
        Some((e, rest)) => {
            let (rs, rest2) = first_line(rest);
            let res = trim(rs);
            if res == seq!['P', 'A', 'S', 'S'] {
                Ok(TestModel { model, expression: trim(e), result: ResultModel::Pass })
            } else if res == seq!['F', 'A', 'I', 'L'] {
                match deps_of(rest2, |l: Seq<char>| new_dep(l)) {
                    Err(err) => Err(err),
                    Ok(ds) => Ok(
                        TestModel { model, expression: trim(e), result: ResultModel::Fail(ds) },
                    ),
                }
            } else {
                Err(ErrorModel::NewTestBadResult { result: res, test: t })
            }
        },
    }
}

/// Reads a test of the new output (see `new_test`).
fn parse_new_test(model: &String, v: &[char], lo: usize, hi: usize) -> (r: Result<Test, ParseError>)
    requires
        lo <= hi <= v@.len(),
    ensures
        result_view(r) == new_test(model@, v@.subrange(lo as int, hi as int)),
{
    let ghost t = v@.subrange(lo as int, hi as int);
    let mark = ['\n', ' ', ' ', 'R', 'e', 's', 'u', 'l', 't', ':', ' '];
    let pass = ['P', 'A', 'S', 'S'];
    let fail = ['F', 'A', 'I', 'L'];
    assert(mark@ =~= new_result_mark());
    assert(pass@ =~= seq!['P', 'A', 'S', 'S']);
    assert(fail@ =~= seq!['F', 'A', 'I', 'L']);
    let e = match find_in(v, lo, hi, &mark) {
        Some(e) => e,
        None => return Err(ParseError::NewTestWithoutResult { test: string_of_range(v, lo, hi) }),
    };
    assert(t.take(e - lo) =~= v@.subrange(lo as int, e as int));
    assert(t.skip(e - lo + 11) =~= v@.subrange(e + 11, hi as int));
    let expression = trimmed_string(v, lo, e);
    let (le, rs) = first_line_at(v, e + 11, hi);
    let (ra, rb) = trim_at(v, e + 11, le);
    if range_is(v, ra, rb, &pass) {
        Ok(Test { model: model.clone(), expression, result: TestResult::Pass })
    } else if range_is(v, ra, rb, &fail) {
        match parse_deps(v, rs, hi, false) {
            Ok(ds) => Ok(Test { model: model.clone(), expression, result: TestResult::Fail(ds) }),
            Err(err) => Err(err),
        }
    } else {
        Err(
            ParseError::NewTestBadResult {
                result: string_of_range(v, ra, rb),
                test: string_of_range(v, lo, hi),
            },
        )
    }
}

pub open spec fn model_mark() -> Seq<char> {
    seq!['.', 'o', 'n', '\n']
}

pub open spec fn test_mark() -> Seq<char> {
    seq!['t', 'e', 's', 't', ':', ' ']
}

/// A group of tests of the new output: the model file `model.on` on a line of its own,
/// then a test after each `test: `. A blank group holds no tests.
pub open spec fn new_test_group(g: Seq<char>) -> Result<Seq<TestModel>, ErrorModel> {
    if trim(g).len() == 0 {
        Ok(seq![])
    } else {
        match split_once(g, model_mark()) {
            None => Err(ErrorModel::NewTestGroup { group: g }),
            Some((m, rest)) => gather(
                split(rest, test_mark()).skip(1).map_values(|t: Seq<char>| new_test(trim(m), t)),
            ),
        }
    }
}

/// Reads a group of tests of the new output (see `new_test_group`) onto the end of `out`.
fn parse_new_test_group(v: &[char], lo: usize, hi: usize, out: &mut Vec<Test>) -> (r: Result<
    (),
    ParseError,
>)
    requires
        lo <= hi <= v@.len(),
    ensures
        match r {
            Ok(()) => new_test_group(v@.subrange(lo as int, hi as int)) matches Ok(ts)
                && tests_view(final(out)@) == tests_view(old(out)@) + ts,
            Err(e) => new_test_group(v@.subrange(lo as int, hi as int)) == Err::<
                Seq<TestModel>,
                ErrorModel,
            >(e@),
        },
{
    let ghost g = v@.subrange(lo as int, hi as int);
    let (ta, tb) = trim_at(v, lo, hi);
    if ta == tb {
        assert(tests_view(old(out)@) + seq![] =~= tests_view(old(out)@));
        return Ok(());
    }
    let mmark = ['.', 'o', 'n', '\n'];
    let tmark = ['t', 'e', 's', 't', ':', ' '];
    assert(mmark@ =~= model_mark());
    assert(tmark@ =~= test_mark());
    let k = match find_in(v, lo, hi, &mmark) {
        Some(k) => k,
        None => return Err(ParseError::NewTestGroup { group: string_of_range(v, lo, hi) }),
    };
    assert(g.take(k - lo) =~= v@.subrange(lo as int, k as int));
    assert(g.skip(k - lo + 4) =~= v@.subrange(k + 4, hi as int));
    let model = trimmed_string(v, lo, k);
    let ghost m = g.take(k - lo);
    let chunks = crate::text::split_at_pattern(v, k + 4, hi, &tmark);
    let ghost rs = split(v@.subrange(k + 4, hi as int), test_mark()).skip(1).map_values(
        |t: Seq<char>| new_test(trim(m), t),
    );
    let ghost start = out@;
    let mut i: usize = 1;
    assert(new_test_group(g) == gather(rs)) by {
        assert(trim(g).len() > 0);
        assert(v@.subrange(k + 4, hi as int) == g.skip(k - lo + 4));
    }
    proof {
        assert(rs.take(0) =~= Seq::<Result<TestModel, ErrorModel>>::empty());
        assert(tests_view(out@) =~= tests_view(start) + seq![]);
        crate::text::lemma_split_nonempty(v@.subrange(k + 4, hi as int), test_mark());
    }
    while i < chunks.len()
        invariant
            1 <= i <= chunks@.len(),
            k + 4 <= hi <= v@.len(),
            model@ == trim(m),
            new_test_group(g) == gather(rs),
            g == v@.subrange(lo as int, hi as int),
            crate::text::ranges_within(chunks@, k + 4, hi as int),
            crate::text::pieces(v@, chunks@) == split(v@.subrange(k + 4, hi as int), test_mark()),
            rs == split(v@.subrange(k + 4, hi as int), test_mark()).skip(1).map_values(
                |t: Seq<char>| new_test(trim(m), t),
            ),
            gather(rs.take(i - 1)) matches Ok(ts) && tests_view(out@) == tests_view(start) + ts,
        decreases chunks.len() - i,
    {
        let (a, b) = chunks[i];
        assert(crate::text::pieces(v@, chunks@)[i as int] == v@.subrange(a as int, b as int));
        assert(rs[i - 1] == new_test(trim(m), v@.subrange(a as int, b as int)));
        assert(rs.take(i as int).drop_last() =~= rs.take(i - 1));
        assert(rs.take(i as int).last() == rs[i - 1]);
        let ghost before = out@;
        match parse_new_test(&model, v, a, b) {
            Ok(t) => {
                let ghost tv = t@;
                out.push(t);
                proof {
                    let ts = gather(rs.take(i - 1))->Ok_0;
                    assert(tests_view(out@) =~= tests_view(start) + ts.push(tv)) by {
                        assert(tests_view(out@) =~= tests_view(before).push(tv));
                    }
                }
            },
            Err(e) => {
                proof {
                    lemma_gather_err(rs, i as int);
                }
                return Err(e);
            },
        }
        i = i + 1;
    }
    assert(rs.take(i - 1) =~= rs);
    Ok(())
}

/// The line between the sections of the new output: 80 box-drawing strokes.
pub open spec fn divider() -> Seq<char> {
    Seq::new(80, |i: int| '\u{2500}').push('\n')
}

/// What the new output holds: the parameters of its parameter lines, and the tests of
/// the groups (blank-line separated) of its third section. Without a third section it
/// holds no tests and is refused.
pub open spec fn new_output(o: Seq<char>) -> Result<(Seq<ParamModel>, Seq<TestModel>), ErrorModel> {
    match gather(lines(o).map_values(|l: Seq<char>| new_param_line(l))) {
        Err(e) => Err(e),
        Ok(ps) => {
            let sections = split(o, divider());
            if sections.len() < 3 {
                Err(ErrorModel::NoTests)
            } else {
                match gather(
                    split(sections[2], seq!['\n', '\n']).map_values(
                        |g: Seq<char>| new_test_group(g),
                    ),
                ) {
                    Err(e) => Err(e),
                    Ok(groups) => Ok((somes(ps), joined(groups))),
                }
            }
        },
    }
}

fn divider_chars() -> (r: Vec<char>)
    ensures
        r@ == divider(),
{
    let mut r: Vec<char> = Vec::new();
    let mut i: usize = 0;
    while i < 80
        invariant
            i <= 80,
            r@ == Seq::new(i as nat, |j: int| '\u{2500}'),
        decreases 80 - i,
    {
        r.push('\u{2500}');
        assert(r@ =~= Seq::new((i + 1) as nat, |j: int| '\u{2500}'));
        i = i + 1;
    }
    r.push('\n');
    assert(r@ =~= divider());
    r
}

/// Reads the output of the new runner (see `new_output`).
pub fn parse_new_output(output: &str) -> (r: Result<(Vec<Param>, Vec<Test>), ParseError>)
    ensures
        match r {
            Ok((ps, ts)) => new_output(output@) == Ok::<
                (Seq<ParamModel>, Seq<TestModel>),
                ErrorModel,
            >((params_view(ps@), tests_view(ts@))),
            Err(e) => new_output(output@) == Err::<
                (Seq<ParamModel>, Seq<TestModel>),
                ErrorModel,
            >(e@),
        },
{
    let v = crate::text::chars_of(output);
    let params = match parse_param_lines(v.as_slice(), Format::New) {
        Ok(ps) => ps,
        Err(e) => {
            proof {
                assert(lines(v@).map_values(|l: Seq<char>| param_line(Format::New, l)) =~= lines(
                    v@,
                ).map_values(|l: Seq<char>| new_param_line(l)));
            }
            return Err(e);
        },
    };
    proof {
        assert(lines(v@).map_values(|l: Seq<char>| param_line(Format::New, l)) =~= lines(
            v@,
        ).map_values(|l: Seq<char>| new_param_line(l)));
    }
    let div = divider_chars();
    assert(v@.subrange(0, v@.len() as int) =~= v@);
    let sections = crate::text::split_at_pattern(v.as_slice(), 0, v.len(), div.as_slice());
    if sections.len() < 3 {
        return Err(ParseError::NoTests);
    }
    let (sa, sb) = sections[2];
    assert(crate::text::pieces(v@, sections@)[2] == v@.subrange(sa as int, sb as int));
    let gap = ['\n', '\n'];
    assert(gap@ =~= seq!['\n', '\n']);
    let groups = crate::text::split_at_pattern(v.as_slice(), sa, sb, &gap);
    let ghost rs = split(v@.subrange(sa as int, sb as int), seq!['\n', '\n']).map_values(
        |g: Seq<char>| new_test_group(g),
    );
    let mut tests: Vec<Test> = Vec::new();
    let ghost mut gs: Seq<Seq<TestModel>> = seq![];
    let mut i: usize = 0;
    proof {
        assert(rs.take(0) =~= Seq::<Result<Seq<TestModel>, ErrorModel>>::empty());
        assert(tests_view(tests@) =~= Seq::<TestModel>::empty());
    }
    while i < groups.len()
        invariant
            i <= groups@.len(),
            sa <= sb <= v@.len(),
            v@ == output@,
            crate::text::ranges_within(groups@, sa as int, sb as int),
            crate::text::pieces(v@, groups@) == split(
                v@.subrange(sa as int, sb as int),
                seq!['\n', '\n'],
            ),
            rs == split(v@.subrange(sa as int, sb as int), seq!['\n', '\n']).map_values(
                |g: Seq<char>| new_test_group(g),
            ),
            gather(lines(v@).map_values(|l: Seq<char>| new_param_line(l))) matches Ok(xs) && somes(
                xs,
            ) == params_view(params@),
            split(v@, divider()).len() >= 3,
            split(v@, divider())[2] == v@.subrange(sa as int, sb as int),
            gather(rs.take(i as int)) == Ok::<Seq<Seq<TestModel>>, ErrorModel>(gs),
            tests_view(tests@) == joined(gs),
        decreases groups.len() - i,
    {
        let (a, b) = groups[i];
        assert(crate::text::pieces(v@, groups@)[i as int] == v@.subrange(a as int, b as int));
        assert(rs[i as int] == new_test_group(v@.subrange(a as int, b as int)));
        assert(rs.take(i + 1).drop_last() =~= rs.take(i as int));
        assert(rs.take(i + 1).last() == rs[i as int]);
        match parse_new_test_group(v.as_slice(), a, b, &mut tests) {
            Ok(()) => {
                proof {
                    let old_gs = gs;
                    gs = gs.push(new_test_group(v@.subrange(a as int, b as int))->Ok_0);
                    assert(gs.drop_last() =~= old_gs);
                }
            },
            Err(e) => {
                proof {
                    lemma_gather_err(rs, i + 1);
                }
                return Err(e);
            },
        }
        i = i + 1;
    }
    assert(rs.take(i as int) =~= rs);
    Ok((params, tests))
}

} // verus!
