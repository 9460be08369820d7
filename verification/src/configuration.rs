//! Options that steer how an evaluation behaves.
//!
//! A [`Configuration`] is built programmatically with [`Configuration::new`]
//! and the `with_*` setters, or from the values of environment variables
//! with [`Configuration::from_env`].  The recognized variables are
//! `EVAL_VERBOSE`, `EVAL_LOG_DIR`, `EVAL_ALLOW_UNCONTAINED`,
//! `EVAL_COMPILE_AGENTS`, `EVAL_SELF_TEST`, `EVAL_TEST_ALL_CONFIGS` and
//! `EVAL_DEBUG_AGENT_STDERR`; a flag is on exactly when its variable holds
//! `"true"` in any letter case.  Reading the process environment is left to
//! the embedding program, which hands the raw values over as a [`ConfigEnv`].

use crate::parse::split_on;
use crate::parse::split_str;
use vstd::prelude::*;

verus! {

/// A character that may not appear in configured agent arguments.
pub open spec fn is_quote_char(c: char) -> bool {
    c == '"' || c == '\'' || c == '`'
}

/// Splits one configuration line into the agent's command-line
/// arguments: the words between single spaces, none for an empty line.
/// Lines holding any kind of quote are rejected, as quoting is not
/// interpreted.
pub fn get_args_from_config(config: &str) -> (r: Result<Vec<String>, String>)
    ensures
        r.is_ok() <==> (forall|i: int| 0 <= i < config@.len() ==> !is_quote_char(config@[i])),
        r.is_ok() && config@.len() == 0 ==> r.unwrap()@.len() == 0,
        r.is_ok() && config@.len() > 0 ==> r.unwrap()@.map_values(|p: String| p@) == split_on(
            config@,
            ' ',
        ),
{
    let len = config.unicode_len();
    let mut i: usize = 0;
    while i < len
        invariant
            len == config@.len(),
            i <= len,
            forall|t: int| 0 <= t < i ==> !is_quote_char(config@[t]),
        decreases len - i,
    {
        let c = config.get_char(i);
        if c == '"' || c == '\'' || c == '`' {
            proof {
                assert(is_quote_char(config@[i as int]));
            }
            return Err(String::from_str("arguments should not contain any quote"));
        }
        i += 1;
    }
    if len == 0 {
        return Ok(Vec::new());
    }
    Ok(split_str(config, ' '))
}

/// Behavior switches for the evaluator.
#[derive(Debug)]
pub struct Configuration {
    pub verbose: bool,
    pub log_dir: Option<String>,
    pub allow_uncontained: bool,
    pub compile_agents: bool,
    pub self_test: bool,
    pub test_all_configs: bool,
    pub debug_agent_stderr: bool,
}

/// The raw values of the recognized environment variables: `None` where a
/// variable is unset.  `log_dir` carries the value of `EVAL_LOG_DIR` only
/// when the caller has checked that it names an existing directory.
#[derive(Debug)]
pub struct ConfigEnv {
    pub verbose: Option<String>,
    pub log_dir: Option<String>,
    pub allow_uncontained: Option<String>,
    pub compile_agents: Option<String>,
    pub self_test: Option<String>,
    pub test_all_configs: Option<String>,
    pub debug_agent_stderr: Option<String>,
}

impl ConfigEnv {
    /// An environment with none of the variables set.
    pub fn unset() -> (env: ConfigEnv)
        ensures
            env.verbose.is_none(),
            env.log_dir.is_none(),
            env.allow_uncontained.is_none(),
            env.compile_agents.is_none(),
            env.self_test.is_none(),
            env.test_all_configs.is_none(),
            env.debug_agent_stderr.is_none(),
    {
        ConfigEnv {
            verbose: None,
            log_dir: None,
            allow_uncontained: None,
            compile_agents: None,
            self_test: None,
            test_all_configs: None,
            debug_agent_stderr: None,
        }
    }
}

/// The four characters of `"true"`, compared without regard to ASCII case.
pub open spec fn spells_true(s: Seq<char>) -> bool {
    &&& s.len() == 4
    &&& (s[0] == 't' || s[0] == 'T')
    &&& (s[1] == 'r' || s[1] == 'R')
    &&& (s[2] == 'u' || s[2] == 'U')
    &&& (s[3] == 'e' || s[3] == 'E')
}

/// What a flag variable means: its value compared case-insensitively with
/// `"true"` when set, the flag's default when unset.
pub open spec fn flag_value(var: Option<String>, default: bool) -> bool {
    match var {
        Some(s) => spells_true(s@),
        None => default,
    }
}

/// True exactly when `s` spells `"true"` in any ASCII case.
fn str_spells_true(s: &str) -> (r: bool)
    ensures
        r == spells_true(s@),
{
    if s.unicode_len() != 4 {
        return false;
    }
    let c0 = s.get_char(0);
    let c1 = s.get_char(1);
    let c2 = s.get_char(2);
    let c3 = s.get_char(3);
    (c0 == 't' || c0 == 'T') && (c1 == 'r' || c1 == 'R') && (c2 == 'u' || c2 == 'U') && (c3 == 'e'
        || c3 == 'E')
}

/// Reads one flag variable, falling back to its default when unset.
fn env_flag(var: &Option<String>, default: bool) -> (r: bool)
    ensures
        r == flag_value(*var, default),
{
    match var {
        Some(s) => str_spells_true(s.as_str()),
        None => default,
    }
}

/// The configuration that `Configuration::new` returns: verbose progress
/// output, no logging, no uncontained fallback, agents compiled, no
/// self-test, only the `eval` configuration tested, agent stderr dropped.
pub open spec fn default_configuration() -> Configuration {
    Configuration {
        verbose: true,
        log_dir: None,
        allow_uncontained: false,
        compile_agents: true,
        self_test: false,
        test_all_configs: false,
        debug_agent_stderr: false,
    }
}

impl Configuration {
    /// Creates a configuration with the default parameters.
    pub fn new() -> (config: Configuration)
        ensures
            config == default_configuration(),
    {
        Configuration {
            verbose: true,
            log_dir: None,
            allow_uncontained: false,
            compile_agents: true,
            self_test: false,
            test_all_configs: false,
            debug_agent_stderr: false,
        }
    }

    /// Creates a configuration from environment-variable values.  Each flag
    /// is on exactly when its variable spells `"true"` (case-insensitive);
    /// an unset variable leaves the default.  With no variable set the
    /// result equals `Configuration::new()`.
    pub fn from_env(env: ConfigEnv) -> (config: Configuration)
        ensures
            config.verbose == flag_value(env.verbose, true),
            config.log_dir == env.log_dir,
            config.allow_uncontained == flag_value(env.allow_uncontained, false),
            config.compile_agents == flag_value(env.compile_agents, true),
            config.self_test == flag_value(env.self_test, false),
            config.test_all_configs == flag_value(env.test_all_configs, false),
            config.debug_agent_stderr == flag_value(env.debug_agent_stderr, false),
            env.verbose.is_none() && env.log_dir.is_none() && env.allow_uncontained.is_none()
                && env.compile_agents.is_none() && env.self_test.is_none()
                && env.test_all_configs.is_none() && env.debug_agent_stderr.is_none()
                ==> config == default_configuration(),
    {
        Configuration {
            verbose: env_flag(&env.verbose, true),
            log_dir: env.log_dir,
            allow_uncontained: env_flag(&env.allow_uncontained, false),
            compile_agents: env_flag(&env.compile_agents, true),
            self_test: env_flag(&env.self_test, false),
            test_all_configs: env_flag(&env.test_all_configs, false),
            debug_agent_stderr: env_flag(&env.debug_agent_stderr, false),
        }
    }

    /// Enables or disables progress output.
    pub fn with_verbose(self, value: bool) -> (config: Configuration)
        ensures
            config == (Configuration { verbose: value, ..self }),
    {
        Configuration { verbose: value, ..self }
    }

    /// Enables logging into the given directory.  The caller is responsible
    /// for the path naming a directory that exists; checking and creating it
    /// belongs to the embedding program.
    pub fn with_log(self, path: String) -> (config: Configuration)
        ensures
            config == (Configuration { log_dir: Some(path), ..self }),
    {
        Configuration { log_dir: Some(path), ..self }
    }

    /// Allows or forbids running without a resource container.
    pub fn with_allow_uncontained(self, value: bool) -> (config: Configuration)
        ensures
            config == (Configuration { allow_uncontained: value, ..self }),
    {
        Configuration { allow_uncontained: value, ..self }
    }

    /// Enables or disables compiling agents before the evaluation.
    pub fn with_compile_agents(self, value: bool) -> (config: Configuration)
        ensures
            config == (Configuration { compile_agents: value, ..self }),
    {
        Configuration { compile_agents: value, ..self }
    }

    /// Enables or disables self-test mode, which evaluates a single agent
    /// in the current directory.
    pub fn with_self_test(self, value: bool) -> (config: Configuration)
        ensures
            config == (Configuration { self_test: value, ..self }),
    {
        Configuration { self_test: value, ..self }
    }

    /// Enables or disables testing every configuration of each agent
    /// instead of only its `eval` configuration.
    pub fn with_test_all_configs(self, value: bool) -> (config: Configuration)
        ensures
            config == (Configuration { test_all_configs: value, ..self }),
    {
        Configuration { test_all_configs: value, ..self }
    }

    /// Enables or disables passing the agents' stderr through for debugging.
    pub fn with_debug_agent_stderr(self, value: bool) -> (config: Configuration)
        ensures
            config == (Configuration { debug_agent_stderr: value, ..self }),
    {
        Configuration { debug_agent_stderr: value, ..self }
    }

    /// True when a log directory is set.
    pub fn is_logging_enabled(&self) -> (enabled: bool)
        ensures
            enabled == self.log_dir.is_some(),
    {
        self.log_dir.is_some()
    }
}

impl Clone for Configuration {
    /// The clone is field-for-field the same configuration.
    fn clone(&self) -> (res: Self)
        ensures
            res == *self,
    {
        Configuration {
            verbose: self.verbose,
            log_dir: self.log_dir.clone(),
            allow_uncontained: self.allow_uncontained,
            compile_agents: self.compile_agents,
            self_test: self.self_test,
            test_all_configs: self.test_all_configs,
            debug_agent_stderr: self.debug_agent_stderr,
        }
    }
}

impl Default for Configuration {
    /// The default configuration equals `Configuration::new()`.
    fn default() -> (config: Self)
        ensures
            config == default_configuration(),
    {
        Configuration::new()
    }
}

impl PartialEq for Configuration {
    /// Configurations are equal when every option agrees.
    fn eq(&self, other: &Self) -> (r: bool) {
        let log_dir_eq = match (&self.log_dir, &other.log_dir) {
            (None, None) => true,
            (Some(a), Some(b)) => *a == *b,
            _ => false,
        };
        log_dir_eq && self.verbose == other.verbose && self.allow_uncontained
            == other.allow_uncontained && self.compile_agents == other.compile_agents
            && self.self_test == other.self_test && self.test_all_configs == other.test_all_configs
            && self.debug_agent_stderr == other.debug_agent_stderr
    }
}

impl vstd::std_specs::cmp::PartialEqSpecImpl for Configuration {
    open spec fn obeys_eq_spec() -> bool {
        true
    }

    open spec fn eq_spec(&self, other: &Configuration) -> bool {
        &&& self.verbose == other.verbose
        &&& match (self.log_dir, other.log_dir) {
            (None, None) => true,
            (Some(a), Some(b)) => a@ == b@,
            _ => false,
        }
        &&& self.allow_uncontained == other.allow_uncontained
        &&& self.compile_agents == other.compile_agents
        &&& self.self_test == other.self_test
        &&& self.test_all_configs == other.test_all_configs
        &&& self.debug_agent_stderr == other.debug_agent_stderr
    }
}

impl Eq for Configuration {}

} // verus!
