use oncmp::args::{Args, Mode};
use oncmp::config::{validate, validate_with, Config, ConfigError, IgnoreConfig, RawConfig, RunConfig};
use oncmp::run::{command_output, run_new, run_old, RunError};

fn args(tests_only: bool, params_only: bool) -> Args {
    Args {
        config_loc: None,
        tests_only,
        params_only,
        include_unchanged: false,
        print_source_on_parse_error: false,
    }
}

#[test]
fn mode_from_flags() {
    assert_eq!(args(true, false).mode(), Mode::Tests);
    assert_eq!(args(false, true).mode(), Mode::Params);
    assert_eq!(args(false, false).mode(), Mode::All);
    assert_eq!(args(true, true).mode(), Mode::All);
}

fn config(old: &str, new: &str, model: &str) -> Config {
    Config::from(RawConfig {
        run: RunConfig { old_repo: old.into(), new_repo: new.into(), model_file: model.into() },
        ignore: IgnoreConfig { params: vec!["p".into()], tests: vec![] },
    })
}

#[test]
fn config_carries_fields() {
    let c = config("/o", "/n", "m.on");
    assert_eq!(c.old_repo, "/o");
    assert_eq!(c.new_repo, "/n");
    assert_eq!(c.model_file, "m.on");
    assert_eq!(c.ignore_params, vec!["p".to_string()]);
    assert!(c.ignore_tests.is_empty());
    let e = IgnoreConfig::empty();
    assert!(e.params.is_empty() && e.tests.is_empty());
}

#[test]
fn config_checks_in_order() {
    let c = config("/o", "/n", "  ");
    assert_eq!(validate_with(&c, false, false), Err(ConfigError::OldRepoMissing));
    assert_eq!(validate_with(&c, true, false), Err(ConfigError::NewRepoMissing));
    assert_eq!(validate_with(&c, true, true), Err(ConfigError::EmptyModelFile));
    assert_eq!(validate_with(&config("/o", "/n", "m.on"), true, true), Ok(()));
}

#[test]
fn config_against_the_file_system() {
    let d = "/";
    let is_dir = |p: &str| std::path::Path::new(p).is_dir();
    assert_eq!(validate(&config(d, d, "m.on"), &is_dir), Ok(()));
    assert_eq!(validate(&config(d, d, ""), &is_dir), Err(ConfigError::EmptyModelFile));
    assert_eq!(validate(&config("/no/such/dir/here", d, "m.on"), &is_dir), Err(ConfigError::OldRepoMissing));
    assert_eq!(validate(&config(d, "/no/such/dir/here", "m.on"), &is_dir), Err(ConfigError::NewRepoMissing));
}

#[test]
fn validate_asks_old_repo_first() {
    let asked = std::cell::RefCell::new(Vec::new());
    let dir = |p: &str| {
        asked.borrow_mut().push(p.to_string());
        false
    };
    assert_eq!(validate(&config("/o", "/n", "m.on"), &dir), Err(ConfigError::OldRepoMissing));
    assert_eq!(*asked.borrow(), vec!["/o".to_string()]);
    let asked2 = std::cell::RefCell::new(Vec::new());
    let dir2 = |p: &str| {
        asked2.borrow_mut().push(p.to_string());
        p == "/o"
    };
    assert_eq!(validate(&config("/o", "/n", "m.on"), &dir2), Err(ConfigError::NewRepoMissing));
    assert_eq!(*asked2.borrow(), vec!["/o".to_string(), "/n".to_string()]);
}

#[test]
fn commands() {
    assert_eq!(
        run_old("/old", "models/a.on"),
        "cd /old && source .venv/bin/activate && cd model/ && oneil regression-test models/a.on"
    );
    assert_eq!(
        run_new("/new", "a.on"),
        "cd /new && source .venv/bin/activate && cd model/ && oneil eval a.on --print all --no-header --no-test-report && oneil test a.on --no-header --recursive"
    );
}

#[test]
fn command_output_cases() {
    assert_eq!(command_output(false, Some(3), Some("x".into())), Err(RunError::Failed { code: 3 }));
    assert_eq!(command_output(false, None, None), Err(RunError::Failed { code: -1 }));
    assert_eq!(command_output(true, Some(0), None), Err(RunError::NotUtf8));
    assert_eq!(command_output(true, Some(0), Some("\x1b[31mred\x1b[39m plain\n".into())), Ok("red plain\n".to_string()));
    assert_eq!(command_output(true, Some(0), Some("plain".into())), Ok("plain".to_string()));
}
