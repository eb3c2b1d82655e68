use oncmp::diff::{diff_params, diff_tests, force_same, test_dependency_params_are_close, Diff};
use oncmp::parse::{Param, ParamValue, Test, TestDependencyParam, TestResult};

fn is_close(a: f64, b: f64) -> bool {
    if a == b {
        return true;
    }
    let tolerance = 1e-3;
    let difference = (a - b).abs();
    let relative_tolerance = tolerance * a.abs().min(b.abs());
    difference <= relative_tolerance || difference <= tolerance
}

fn close(a: &String, b: &String) -> bool {
    is_close(a.parse::<f64>().unwrap_or(f64::NAN), b.parse::<f64>().unwrap_or(f64::NAN))
}

fn num(name: &str, v: &str) -> Param {
    Param {
        name: name.to_string(),
        value: ParamValue::Scalar(v.to_string()),
        unit: Some("m".to_string()),
        description: "d".to_string(),
    }
}

fn names(ds: &[Diff<Param>]) -> Vec<String> {
    ds.iter().map(|d| d.first().name.clone()).collect()
}

#[test]
fn params_matched_by_name_and_sorted() {
    let old = vec![num("b", "1"), num("a", "2"), num("c", "3")];
    let new = vec![num("d", "1"), num("a", "2.0001"), num("c", "4")];
    let ds = diff_params(&old, &new, &[], &close);
    assert_eq!(names(&ds), vec!["a", "b", "c", "d"]);
    assert!(matches!(ds[0], Diff::Same(_)));
    assert!(matches!(ds[1], Diff::OldOnly(_)));
    match &ds[2] {
        Diff::Different(o, n) => {
            assert_eq!(o.value.clone_scalar(), "3");
            assert_eq!(n.value.clone_scalar(), "4");
        }
        other => panic!("unexpected {:?}", other),
    }
    assert!(matches!(ds[3], Diff::NewOnly(_)));
}

trait ScalarText {
    fn clone_scalar(&self) -> String;
}

impl ScalarText for ParamValue {
    fn clone_scalar(&self) -> String {
        match self {
            ParamValue::Scalar(s) => s.clone(),
            _ => panic!("not a number"),
        }
    }
}

#[test]
fn last_param_of_a_name_counts() {
    let old = vec![num("a", "1"), num("a", "5")];
    let new = vec![num("a", "5")];
    let ds = diff_params(&old, &new, &[], &close);
    assert_eq!(ds.len(), 1);
    assert!(matches!(ds[0], Diff::Same(_)));
}

#[test]
fn ignored_params_are_same_showing_new() {
    let old = vec![num("a", "1"), num("b", "1")];
    let new = vec![num("a", "9"), num("c", "1")];
    let ignore = vec!["a".to_string(), "b".to_string(), "c".to_string()];
    let ds = diff_params(&old, &new, &ignore, &close);
    assert_eq!(names(&ds), vec!["a", "b", "c"]);
    for d in &ds {
        assert!(matches!(d, Diff::Same(_)));
    }
    match &ds[0] {
        Diff::Same(p) => assert_eq!(p.value.clone_scalar(), "9"),
        _ => unreachable!(),
    }
}

#[test]
fn params_against_themselves_are_same() {
    let ps = vec![num("x", "1.5"), num("y", "-3"), num("z", "1e3")];
    let ds = diff_params(&ps, &ps, &[], &close);
    assert_eq!(ds.len(), 3);
    assert!(ds.iter().all(|d| matches!(d, Diff::Same(_))));
}

#[test]
fn nan_is_not_the_same_as_itself() {
    let ps = vec![num("x", "NaN")];
    let ds = diff_params(&ps, &ps, &[], &close);
    assert!(matches!(ds[0], Diff::Different(_, _)));
}

#[test]
fn unit_or_description_change_is_a_difference() {
    let mut other = num("x", "1");
    other.unit = None;
    let ds = diff_params(&[num("x", "1")], &[other], &[], &close);
    assert!(matches!(ds[0], Diff::Different(_, _)));
    let mut other = num("x", "1");
    other.description = "e".to_string();
    let ds = diff_params(&[num("x", "1")], &[other], &[], &close);
    assert!(matches!(ds[0], Diff::Different(_, _)));
}

#[test]
fn values_compare_by_kind() {
    let mk = |v: ParamValue| Param { name: "v".into(), value: v, unit: None, description: String::new() };
    let iv = |a: &str, b: &str| ParamValue::Interval { min: a.into(), max: b.into() };
    let same = |a: ParamValue, b: ParamValue| {
        matches!(diff_params(&[mk(a)], &[mk(b)], &[], &close)[0], Diff::Same(_))
    };
    assert!(same(iv("1", "2"), iv("1.0", "2.0005")));
    assert!(!same(iv("1", "2"), iv("1", "3")));
    assert!(same(ParamValue::EmptyInterval, ParamValue::EmptyInterval));
    assert!(same(ParamValue::Str("a".into()), ParamValue::Str("a".into())));
    assert!(!same(ParamValue::Str("a".into()), ParamValue::Str("b".into())));
    assert!(!same(ParamValue::Scalar("1".into()), ParamValue::Str("1".into())));
    assert!(!same(ParamValue::EmptyInterval, iv("1", "1")));
}

fn dep(name: &str, v: &str) -> TestDependencyParam {
    TestDependencyParam { name: name.into(), value: ParamValue::Scalar(v.into()), unit: None }
}

fn test(model: &str, expr: &str, result: TestResult) -> Test {
    Test { model: model.into(), expression: expr.into(), result }
}

#[test]
fn tests_matched_by_expression() {
    let old = vec![
        test("m", "a > 1", TestResult::Pass),
        test("m", "b > 1", TestResult::Fail(vec![dep("b", "0"), dep("c", "1")])),
        test("m", "c > 1", TestResult::Pass),
    ];
    let new = vec![
        test("m", "a > 1", TestResult::Fail(vec![])),
        test("m", "b > 1", TestResult::Fail(vec![dep("c", "1.00001"), dep("b", "0")])),
        test("m", "d > 1", TestResult::Pass),
    ];
    let ds = diff_tests(&old, &new, &[], &close);
    let exprs: Vec<&str> = ds.iter().map(|d| d.first().expression.as_str()).collect();
    assert_eq!(exprs, vec!["a > 1", "b > 1", "c > 1", "d > 1"]);
    assert!(matches!(ds[0], Diff::Different(_, _)));
    assert!(matches!(ds[1], Diff::Same(_)));
    assert!(matches!(ds[2], Diff::OldOnly(_)));
    assert!(matches!(ds[3], Diff::NewOnly(_)));
}

#[test]
fn failure_dependencies_must_match() {
    let a = test("m", "t", TestResult::Fail(vec![dep("b", "0")]));
    let b = test("m", "t", TestResult::Fail(vec![dep("b", "0"), dep("c", "0")]));
    let c = test("m", "t", TestResult::Fail(vec![dep("x", "0")]));
    let model_changed = test("n", "t", TestResult::Fail(vec![dep("b", "0")]));
    assert!(matches!(diff_tests(&[a.clone()], &[b], &[], &close)[0], Diff::Different(_, _)));
    assert!(matches!(diff_tests(&[a.clone()], &[c], &[], &close)[0], Diff::Different(_, _)));
    assert!(matches!(diff_tests(&[a.clone()], &[model_changed], &[], &close)[0], Diff::Different(_, _)));
    let ignored = diff_tests(&[a], &[test("m", "t", TestResult::Pass)], &["t".to_string()], &close);
    match &ignored[0] {
        Diff::Same(t) => assert!(matches!(t.result, TestResult::Pass)),
        other => panic!("unexpected {:?}", other),
    }
}

#[test]
fn force_same_keeps_newest() {
    assert!(matches!(force_same(Diff::OldOnly(1)), Diff::Same(1)));
    assert!(matches!(force_same(Diff::Same(2)), Diff::Same(2)));
    assert!(matches!(force_same(Diff::Different(3, 4)), Diff::Same(4)));
    assert!(matches!(force_same(Diff::NewOnly(5)), Diff::Same(5)));
}

#[test]
fn first_is_the_old_side() {
    assert_eq!(*Diff::Different(1, 2).first(), 1);
    assert_eq!(*Diff::NewOnly(7).first(), 7);
}

#[test]
fn swapping_runs_swaps_sides() {
    let a = vec![num("x", "1"), num("y", "2")];
    let b = vec![num("y", "2"), num("z", "3")];
    let ab = diff_params(&a, &b, &[], &close);
    let ba = diff_params(&b, &a, &[], &close);
    assert!(matches!(ab[0], Diff::OldOnly(_)));
    assert!(matches!(ba[0], Diff::NewOnly(_)));
    assert!(matches!(ab[2], Diff::NewOnly(_)));
    assert!(matches!(ba[2], Diff::OldOnly(_)));
}

#[test]
fn value_comparison_is_symmetric() {
    let mk = |v: ParamValue| Param { name: "v".into(), value: v, unit: None, description: String::new() };
    let iv = |a: &str, b: &str| ParamValue::Interval { min: a.into(), max: b.into() };
    let values = vec![
        ParamValue::Scalar("1".into()),
        ParamValue::Scalar("1.0004".into()),
        iv("1", "2"),
        iv("1.0", "2.0005"),
        ParamValue::EmptyInterval,
        ParamValue::Str("a".into()),
    ];
    for a in &values {
        for b in &values {
            let ab = matches!(diff_params(&[mk(a.clone())], &[mk(b.clone())], &[], &close)[0], Diff::Same(_));
            let ba = matches!(diff_params(&[mk(b.clone())], &[mk(a.clone())], &[], &close)[0], Diff::Same(_));
            assert_eq!(ab, ba);
        }
    }
}

#[test]
fn dependency_order_does_not_matter() {
    let a = test("m", "t", TestResult::Fail(vec![dep("b", "0"), dep("c", "1"), dep("d", "2")]));
    let b = test("m", "t", TestResult::Fail(vec![dep("d", "2"), dep("b", "0"), dep("c", "1.00001")]));
    assert!(matches!(diff_tests(&[a.clone()], &[b.clone()], &[], &close)[0], Diff::Same(_)));
    assert!(matches!(diff_tests(&[b], &[a], &[], &close)[0], Diff::Same(_)));
}

#[test]
fn dependencies_compared_directly() {
    let a = vec![dep("b", "0"), dep("c", "1")];
    let b = vec![dep("c", "1.00001"), dep("b", "0")];
    let c = vec![dep("b", "0"), dep("c", "2")];
    assert!(test_dependency_params_are_close(&a, &b, &close));
    assert!(test_dependency_params_are_close(&b, &a, &close));
    assert!(!test_dependency_params_are_close(&a, &c, &close));
    assert!(!test_dependency_params_are_close(&a, &vec![dep("b", "0")], &close));
}
