use oncmp::parse::{parse_new_output, parse_old_output, ParamValue, ParseError, TestResult};

fn divider() -> String {
    let mut s = "\u{2500}".repeat(80);
    s.push('\n');
    s
}

fn scalar(v: &ParamValue) -> &str {
    match v {
        ParamValue::Scalar(s) => s.as_str(),
        other => panic!("expected a number, got {:?}", other),
    }
}

#[test]
fn old_param_with_unit() {
    let (ps, ts) = parse_old_output("x: 5 m -- \"the x\"\n").unwrap();
    assert_eq!(ps.len(), 1);
    assert!(ts.is_empty());
    assert_eq!(ps[0].name, "x");
    assert_eq!(scalar(&ps[0].value), "5");
    assert_eq!(ps[0].unit.as_deref(), Some("m"));
    assert_eq!(ps[0].description, "the x");
}

#[test]
fn old_param_repeated_string() {
    let (ps, _) = parse_old_output("y: abc | abc -- \"a string\"").unwrap();
    match &ps[0].value {
        ParamValue::Str(s) => assert_eq!(s, "abc"),
        other => panic!("unexpected {:?}", other),
    }
    assert_eq!(ps[0].unit, None);
    assert_eq!(ps[0].description, "a string");
}

#[test]
fn old_param_exponent_is_normalized() {
    let (ps, _) = parse_old_output("e: 1e5 kg -- \"big\"").unwrap();
    assert_eq!(scalar(&ps[0].value), "1.0e5");
}

#[test]
fn old_param_without_unit_is_refused() {
    // Nothing stands between the value and `-- "`, which the old format requires.
    let r = parse_old_output("x: 5 -- \"d\"");
    match r {
        Err(ParseError::OldParam { line }) => assert_eq!(line, "x: 5 -- \"d\""),
        other => panic!("unexpected {:?}", other),
    }
}

#[test]
fn old_param_bad_interval_is_refused() {
    let r = parse_old_output("x: 1|abc m -- \"d\"");
    assert!(matches!(r, Err(ParseError::OldParam { .. })));
}

#[test]
fn old_tests_pass_and_fail() {
    let out = "header\nTest (model1): par_a**2 > 1\n\tResult: pass\nTest (model2): b < 3\n\tResult: fail\n\tb: 4 m\n";
    let (ps, ts) = parse_old_output(out).unwrap();
    assert!(ps.is_empty());
    assert_eq!(ts.len(), 2);
    assert_eq!(ts[0].model, "model1");
    assert_eq!(ts[0].expression, "a^2 > 1");
    assert!(matches!(ts[0].result, TestResult::Pass));
    assert_eq!(ts[1].model, "model2");
    assert_eq!(ts[1].expression, "b < 3");
    match &ts[1].result {
        TestResult::Fail(ds) => {
            assert_eq!(ds.len(), 1);
            assert_eq!(ds[0].name, "b");
            assert_eq!(scalar(&ds[0].value), "4");
            assert_eq!(ds[0].unit.as_deref(), Some("m"));
        }
        TestResult::Pass => panic!("expected a failure"),
    }
}

#[test]
fn old_test_errors() {
    match parse_old_output("x\nTest (model1 a > 1") {
        Err(ParseError::OldTestWithoutModel { chunk }) => assert_eq!(chunk, "model1 a > 1"),
        other => panic!("unexpected {:?}", other),
    }
    match parse_old_output("x\nTest (m): a > 1\nResult: pass") {
        Err(ParseError::OldTestWithoutResult { .. }) => {}
        other => panic!("unexpected {:?}", other),
    }
    match parse_old_output("x\nTest (m): a > 1\n\tResult: maybe\n") {
        Err(ParseError::OldTestBadResult { result, .. }) => assert_eq!(result, "maybe"),
        other => panic!("unexpected {:?}", other),
    }
    match parse_old_output("x\nTest (m): a > 1\n\tResult: fail\n\tb: 1|x m\n") {
        Err(ParseError::InvalidInterval { input }) => assert_eq!(input, "1|x"),
        other => panic!("unexpected {:?}", other),
    }
}

fn new_output() -> String {
    let d = divider();
    format!(
        "x = 5 :m # the x\ny = 'hello world' # greeting\nz = 1 | 2.5 :s # range\nw = <empty> # nothing\n{d}summary\n{d}model1.on\ntest: a^2 > 1\n  Result: PASS\ntest: b < 3\n  Result: FAIL\n  - b = 4 :m\n\nmodel2.on\ntest: c\n  Result: PASS\n"
    )
}

#[test]
fn new_params() {
    let (ps, _) = parse_new_output(&new_output()).unwrap();
    assert_eq!(ps.len(), 4);
    assert_eq!(ps[0].name, "x");
    assert_eq!(scalar(&ps[0].value), "5");
    assert_eq!(ps[0].unit.as_deref(), Some("m"));
    assert_eq!(ps[0].description, "the x");
    match &ps[1].value {
        ParamValue::Str(s) => assert_eq!(s, "hello world"),
        other => panic!("unexpected {:?}", other),
    }
    match &ps[2].value {
        ParamValue::Interval { min, max } => {
            assert_eq!(min, "1");
            assert_eq!(max, "2.5");
        }
        other => panic!("unexpected {:?}", other),
    }
    assert_eq!(ps[2].unit.as_deref(), Some("s"));
    assert!(matches!(ps[3].value, ParamValue::EmptyInterval));
}

#[test]
fn new_tests() {
    let (_, ts) = parse_new_output(&new_output()).unwrap();
    assert_eq!(ts.len(), 3);
    assert_eq!(ts[0].model, "model1");
    assert_eq!(ts[0].expression, "a^2 > 1");
    assert!(matches!(ts[0].result, TestResult::Pass));
    assert_eq!(ts[1].expression, "b < 3");
    match &ts[1].result {
        TestResult::Fail(ds) => {
            assert_eq!(ds.len(), 1);
            assert_eq!(ds[0].name, "b");
            assert_eq!(ds[0].unit.as_deref(), Some("m"));
        }
        TestResult::Pass => panic!("expected a failure"),
    }
    assert_eq!(ts[2].model, "model2");
    assert_eq!(ts[2].expression, "c");
}

#[test]
fn new_output_errors() {
    assert!(matches!(parse_new_output("x = 1 # a\n"), Err(ParseError::NoTests)));
    match parse_new_output("= 1 # a\n") {
        Err(ParseError::NewParam { line }) => assert_eq!(line, "= 1 # a"),
        other => panic!("unexpected {:?}", other),
    }
    let d = divider();
    match parse_new_output(&format!("{d}{d}model1\ntest: a\n")) {
        Err(ParseError::NewTestGroup { .. }) => {}
        other => panic!("unexpected {:?}", other),
    }
    match parse_new_output(&format!("{d}{d}m.on\ntest: a\n")) {
        Err(ParseError::NewTestWithoutResult { test }) => assert_eq!(test, "a\n"),
        other => panic!("unexpected {:?}", other),
    }
    match parse_new_output(&format!("{d}{d}m.on\ntest: a\n  Result: SKIP\n")) {
        Err(ParseError::NewTestBadResult { result, .. }) => assert_eq!(result, "SKIP"),
        other => panic!("unexpected {:?}", other),
    }
    match parse_new_output(&format!("{d}{d}m.on\ntest: a\n  Result: FAIL\n  - b 4\n")) {
        Err(ParseError::DependencyWithoutValue { line }) => assert_eq!(line, "b 4"),
        other => panic!("unexpected {:?}", other),
    }
}

#[test]
fn blank_groups_hold_no_tests() {
    let d = divider();
    let (_, ts) = parse_new_output(&format!("{d}{d}\n\n  \n\n")).unwrap();
    assert!(ts.is_empty());
}

#[test]
fn numbers_as_f64_reads_them() {
    // Every literal that is kept as a number is one that f64 reads.
    let d = divider();
    let out = format!("a = 1e5 # x\nb = -2.5E-3 # x\nc = inf # x\nd = .5 # x\ne = 5. # x\nf = 1e # x\ng = +7 # x\n{d}{d}");
    let (ps, _) = parse_new_output(&out).unwrap();
    for p in &ps[..5] {
        let s = scalar(&p.value);
        assert!(s.parse::<f64>().is_ok(), "{s}");
    }
    assert_eq!(scalar(&ps[0].value), "1.0e5");
    match &ps[5].value {
        ParamValue::Str(s) => assert_eq!(s, "1e"),
        other => panic!("unexpected {:?}", other),
    }
    assert_eq!(scalar(&ps[6].value), "+7");
}
