//! The configuration: the two repositories, the model file, and what to ignore.
use vstd::prelude::*;
use crate::text::trim;

verus! {

/// The `[run]` table: the repositories of the old and the new model, and the model file.
pub struct RunConfig {
    pub old_repo: String,
    pub new_repo: String,
    pub model_file: String,
}

/// The `[ignore]` table: names of parameters and expressions of tests not to compare.
pub struct IgnoreConfig {
    pub params: Vec<String>,
    pub tests: Vec<String>,
}

impl IgnoreConfig {
    /// Nothing ignored, as where the table is missing.
    pub fn empty() -> (r: IgnoreConfig)
        ensures
            r.params@.len() == 0,
            r.tests@.len() == 0,
    {
        IgnoreConfig { params: Vec::new(), tests: Vec::new() }
    }
}

/// The configuration file as it is written.
pub struct RawConfig {
    pub run: RunConfig,
    pub ignore: IgnoreConfig,
}

/// The configuration of a comparison.
pub struct Config {
    pub ignore_params: Vec<String>,
    pub ignore_tests: Vec<String>,
    pub old_repo: String,
    pub new_repo: String,
    pub model_file: String,
}

impl vstd::std_specs::convert::FromSpecImpl<RawConfig> for Config {
    open spec fn obeys_from_spec() -> bool {
        true
    }

    open spec fn from_spec(raw: RawConfig) -> Config {
        Config {
            ignore_params: raw.ignore.params,
            ignore_tests: raw.ignore.tests,
            old_repo: raw.run.old_repo,
            new_repo: raw.run.new_repo,
            model_file: raw.run.model_file,
        }
    }
}

impl From<RawConfig> for Config {
    /// The configuration that the file gives, every field carried over.
    fn from(raw: RawConfig) -> (r: Config) {
        Config {
            ignore_params: raw.ignore.params,
            ignore_tests: raw.ignore.tests,
            old_repo: raw.run.old_repo,
            new_repo: raw.run.new_repo,
            model_file: raw.run.model_file,
        }
    }
}

/// Why a configuration is refused.
#[derive(Clone, Copy, Debug, PartialEq, Eq, Structural)]
pub enum ConfigError {
    /// The old repository is not a directory.
    OldRepoMissing,
    /// The new repository is not a directory.
    NewRepoMissing,
    /// The model file is blank.
    EmptyModelFile,
}

/// What checking the configuration gives, where the old and the new repository are
/// directories as `old_is_dir` and `new_is_dir` say: the first of these that fails, in
/// this order, else success.
pub open spec fn check_config(model_file: Seq<char>, old_is_dir: bool, new_is_dir: bool) -> Result<
    (),
    ConfigError,
> {
    if !old_is_dir {
        Err(ConfigError::OldRepoMissing)
    } else if !new_is_dir {
        Err(ConfigError::NewRepoMissing)
    } else if trim(model_file).len() == 0 {
        Err(ConfigError::EmptyModelFile)
    } else {
        Ok(())
    }
}

/// Checks the configuration, given whether the two repositories are directories (see
/// `check_config`).
pub fn validate_with(config: &Config, old_is_dir: bool, new_is_dir: bool) -> (r: Result<
    (),
    ConfigError,
>)
    ensures
        r == check_config(config.model_file@, old_is_dir, new_is_dir),
{
    if !old_is_dir {
        return Err(ConfigError::OldRepoMissing);
    }
    if !new_is_dir {
        return Err(ConfigError::NewRepoMissing);
    }
    let m = crate::text::chars_of(config.model_file.as_str());
    let (a, b) = crate::text::trim_at(m.as_slice(), 0, m.len());
    assert(m@.subrange(0, m@.len() as int) =~= m@);
    if a == b {
        return Err(ConfigError::EmptyModelFile);
    }
    Ok(())
}

/// What checking the configuration gives, where `dir` answers whether a path names a
/// directory: the old repository is asked first; only where it is a directory is the new
/// one asked, and then `check_config` decides.
pub open spec fn checked_with<D: Fn(&str) -> bool>(
    config: &Config,
    dir: D,
    r: Result<(), ConfigError>,
) -> bool {
    exists|po: &str, o: bool|
        #![trigger call_ensures(dir, (po,), o)]
        po@ == config.old_repo@ && call_ensures(dir, (po,), o) && if !o {
            r == Err::<(), ConfigError>(ConfigError::OldRepoMissing)
        } else {
            exists|pn: &str, n: bool|
                #![trigger call_ensures(dir, (pn,), n)]
                pn@ == config.new_repo@ && call_ensures(dir, (pn,), n) && r == check_config(
                    config.model_file@,
                    true,
                    n,
                )
        }
}

/// Checks the configuration against the file system, which `dir` asks (whether a path
/// names a directory): the two repositories must be directories and the model file must
/// not be blank (see `checked_with`).
pub fn validate<D: Fn(&str) -> bool>(config: &Config, dir: &D) -> (r: Result<(), ConfigError>)
    requires
        forall|p: &str| call_requires(*dir, (p,)),
    ensures
        checked_with(config, *dir, r),
{
    let po = config.old_repo.as_str();
    let old_is_dir = dir(po);
    if !old_is_dir {
        assert(call_ensures(*dir, (po,), old_is_dir));
        return Err(ConfigError::OldRepoMissing);
    }
    let pn = config.new_repo.as_str();
    let new_is_dir = dir(pn);
    let r = validate_with(config, true, new_is_dir);
    assert(checked_with(config, *dir, r)) by {
        assert(call_ensures(*dir, (pn,), new_is_dir));
        assert(call_ensures(*dir, (po,), old_is_dir));
    }
    r
}

} // verus!
