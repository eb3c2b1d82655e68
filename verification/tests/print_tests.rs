use oncmp::diff::Diff;
use oncmp::parse::{parse_new_param, Param, ParamValue, Test, TestDependencyParam, TestResult};
use oncmp::print::{
    indent_all_with_prefix, indent_line, print_error, param_to_string, print_diff_summary, print_params,
    print_params_diff, print_tests, print_tests_diff, test_dependency_param_to_string,
    test_to_string,
};

fn show(s: &String) -> String {
    s.parse::<f64>().map(|v| v.to_string()).unwrap_or_else(|_| s.clone())
}

fn p(name: &str, v: ParamValue, unit: Option<&str>) -> Param {
    Param { name: name.into(), value: v, unit: unit.map(|u| u.into()), description: "desc".into() }
}

#[test]
fn params_written() {
    assert_eq!(param_to_string(&p("x", ParamValue::Scalar("5".into()), Some("m")), &show), "x = 5.0 :m  # desc");
    assert_eq!(param_to_string(&p("x", ParamValue::Scalar("1.0e5".into()), None), &show), "x = 100000.0  # desc");
    assert_eq!(param_to_string(&p("x", ParamValue::Scalar("2.5".into()), None), &show), "x = 2.5  # desc");
    assert_eq!(
        param_to_string(&p("x", ParamValue::Interval { min: "1".into(), max: "2.5".into() }, None), &show),
        "x = 1.0 | 2.5  # desc"
    );
    assert_eq!(param_to_string(&p("x", ParamValue::EmptyInterval, None), &show), "x = <empty>  # desc");
    assert_eq!(param_to_string(&p("x", ParamValue::Str("hi".into()), None), &show), "x = 'hi'  # desc");
}

#[test]
fn tests_written_with_sorted_dependencies() {
    let t = Test {
        model: "m".into(),
        expression: "a > b".into(),
        result: TestResult::Fail(vec![
            TestDependencyParam { name: "b".into(), value: ParamValue::Scalar("2".into()), unit: Some("s".into()) },
            TestDependencyParam { name: "a".into(), value: ParamValue::Str("q".into()), unit: None },
        ]),
    };
    assert_eq!(test_to_string(&t, &show), "test (m): a > b\n  result: fail\n  - a = 'q'\n  - b = 2.0 :s");
    let t = Test { model: "m".into(), expression: "c".into(), result: TestResult::Pass };
    assert_eq!(test_to_string(&t, &show), "test (m): c\n  result: pass");
}

#[test]
fn indentation() {
    assert_eq!(indent_line("abc", 2), "  abc");
    assert_eq!(indent_all_with_prefix("a\nb", 2, "-"), "- a\n- b");
    assert_eq!(indent_all_with_prefix("a\r\nb\n", 3, "+"), "+  a\n+  b");
    assert_eq!(indent_all_with_prefix("a", 1, "--"), "--a");
    assert_eq!(indent_all_with_prefix("a", 2, "\u{e9}"), "\u{e9}a");
    assert_eq!(indent_all_with_prefix("", 2, "-"), "");
}

#[test]
fn summary_counts() {
    let ds: Vec<Diff<u8>> = vec![Diff::NewOnly(1), Diff::Same(2), Diff::Different(3, 4), Diff::Different(5, 6), Diff::OldOnly(7)];
    assert_eq!(print_diff_summary(&ds), "\x1b[1msummary:\x1b[0m 1 added, 1 removed, 2 changed\n");
    let none: Vec<Diff<u8>> = vec![];
    assert_eq!(print_diff_summary(&none), "\x1b[1msummary:\x1b[0m 0 added, 0 removed, 0 changed\n");
    let many: Vec<Diff<u8>> = (0..12).map(Diff::NewOnly).collect();
    assert_eq!(print_diff_summary(&many), "\x1b[1msummary:\x1b[0m 12 added, 0 removed, 0 changed\n");
}

#[test]
fn param_diffs_written_sorted_and_colored() {
    let mut ds = vec![
        Diff::NewOnly(p("c", ParamValue::Scalar("3".into()), None)),
        Diff::Same(p("b", ParamValue::Scalar("2".into()), None)),
        Diff::Different(p("a", ParamValue::Scalar("1".into()), None), p("a", ParamValue::Scalar("9".into()), None)),
    ];
    let text = print_params_diff(&mut ds, false, &show);
    assert_eq!(
        text,
        "\x1b[31m- a = 1.0  # desc\x1b[39m\n\x1b[32m+ a = 9.0  # desc\x1b[39m\n\x1b[32m+ c = 3.0  # desc\x1b[39m\n"
    );
    assert_eq!(ds[0].first().name, "a");
    assert_eq!(ds[1].first().name, "b");
    assert_eq!(ds[2].first().name, "c");
    let with_same = print_params_diff(&mut ds, true, &show);
    assert!(with_same.contains("\n  b = 2.0  # desc\n"));
}

#[test]
fn sections() {
    let mut ds = vec![Diff::OldOnly(p("a", ParamValue::Str("x".into()), None))];
    assert_eq!(
        print_params(&mut ds, false, &show),
        "========== PARAMETERS ==========\n\x1b[31m- a = 'x'  # desc\x1b[39m\n\n\x1b[1msummary:\x1b[0m 0 added, 1 removed, 0 changed\n\n"
    );
    let mut ts = vec![
        Diff::Same(Test { model: "n".into(), expression: "a".into(), result: TestResult::Pass }),
        Diff::NewOnly(Test { model: "m".into(), expression: "z".into(), result: TestResult::Pass }),
    ];
    assert_eq!(
        print_tests(&mut ts, false, &show),
        "========== TESTS ==========\n\x1b[32m+ test (m): z\n+   result: pass\x1b[39m\n\n\x1b[1msummary:\x1b[0m 1 added, 0 removed, 0 changed\n"
    );
    assert_eq!(ts[0].first().model, "m");
    let mut ts2 = vec![
        Diff::Same(Test { model: "m".into(), expression: "b".into(), result: TestResult::Pass }),
        Diff::Same(Test { model: "m".into(), expression: "a".into(), result: TestResult::Pass }),
    ];
    let t = print_tests_diff(&mut ts2, true, &show);
    assert_eq!(t, "  test (m): a\n    result: pass\n  test (m): b\n    result: pass\n");
}

#[test]
fn dependency_written() {
    let d = TestDependencyParam { name: "k".into(), value: ParamValue::Scalar("-0.5".into()), unit: Some("kg".into()) };
    assert_eq!(test_dependency_param_to_string(&d, &show), "- k = -0.5 :kg");
    let d = TestDependencyParam { name: "k".into(), value: ParamValue::Scalar("inf".into()), unit: None };
    assert_eq!(test_dependency_param_to_string(&d, &show), "- k = inf.0");
}

#[test]
fn unchanged_diffs_summarize_to_nothing() {
    let ds: Vec<Diff<u8>> = vec![Diff::Same(1), Diff::Same(2)];
    assert_eq!(print_diff_summary(&ds), "\x1b[1msummary:\x1b[0m 0 added, 0 removed, 0 changed\n");
}

#[test]
fn error_text() {
    assert_eq!(print_error("bad"), "\x1b[31m\nerror: bad\x1b[39m");
}

#[test]
fn param_read_back() {
    let cases = vec![
        Param { name: "size".into(), value: ParamValue::Str("big one".into()), unit: Some("m/s".into()), description: "the size".into() },
        Param { name: "gap".into(), value: ParamValue::EmptyInterval, unit: None, description: "".into() },
        Param { name: "mode".into(), value: ParamValue::Str("a = b".into()), unit: Some("u:v".into()), description: "x # y".into() },
    ];
    for c in cases {
        let text: Vec<char> = param_to_string(&c, &show).chars().collect();
        let back = parse_new_param(&text, 0, text.len()).unwrap();
        assert_eq!(format!("{:?}", back), format!("{:?}", c));
    }
}

#[test]
fn summary_in_any_order_and_without_unchanged() {
    let a: Vec<Diff<u8>> = vec![Diff::NewOnly(1), Diff::Different(3, 4), Diff::OldOnly(7)];
    let b: Vec<Diff<u8>> = vec![Diff::OldOnly(7), Diff::Same(9), Diff::NewOnly(1), Diff::Same(2), Diff::Different(3, 4)];
    assert_eq!(print_diff_summary(&a), print_diff_summary(&b));
}

#[test]
fn summary_same_changes_any_order_any_unchanged() {
    let a: Vec<Diff<u8>> = vec![Diff::Same(1), Diff::Same(2), Diff::Different(3, 4), Diff::NewOnly(5), Diff::Same(6)];
    let b: Vec<Diff<u8>> = vec![Diff::NewOnly(5), Diff::Different(3, 4)];
    assert_eq!(print_diff_summary(&a), print_diff_summary(&b));
}
