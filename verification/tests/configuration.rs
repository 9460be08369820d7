//! Configuration defaults, environment parsing, and config-file argument
//! splitting.

use ai_tournament::configuration::get_args_from_config;
use ai_tournament::configuration::ConfigEnv;
use ai_tournament::configuration::Configuration;

#[test]
fn from_env_with_nothing_set_equals_new() {
    assert_eq!(Configuration::from_env(ConfigEnv::unset()), Configuration::new());
}

#[test]
fn from_env_reads_flags_case_insensitively() {
    let env = ConfigEnv {
        verbose: Some("FALSE".to_string()),
        log_dir: Some("/tmp/logs".to_string()),
        allow_uncontained: Some("tRuE".to_string()),
        compile_agents: Some("no".to_string()),
        self_test: Some("TRUE".to_string()),
        test_all_configs: Some("true".to_string()),
        debug_agent_stderr: Some("1".to_string()),
    };
    let c = Configuration::from_env(env);
    assert!(!c.verbose);
    assert_eq!(c.log_dir, Some("/tmp/logs".to_string()));
    assert!(c.allow_uncontained);
    assert!(!c.compile_agents);
    assert!(c.self_test);
    assert!(c.test_all_configs);
    assert!(!c.debug_agent_stderr);
    assert!(c.is_logging_enabled());
}

#[test]
fn setters_flip_single_fields() {
    let c = Configuration::new()
        .with_verbose(false)
        .with_allow_uncontained(true)
        .with_compile_agents(false)
        .with_self_test(true)
        .with_test_all_configs(true)
        .with_debug_agent_stderr(true)
        .with_log("logs".to_string());
    assert!(!c.verbose);
    assert!(c.allow_uncontained);
    assert!(!c.compile_agents);
    assert!(c.self_test);
    assert!(c.test_all_configs);
    assert!(c.debug_agent_stderr);
    assert_eq!(c.log_dir, Some("logs".to_string()));
    assert_eq!(Configuration::default(), Configuration::new());
}

#[test]
fn config_args_split_on_spaces() {
    assert_eq!(get_args_from_config("").unwrap(), Vec::<String>::new());
    assert_eq!(get_args_from_config("--mode fast").unwrap(), vec!["--mode", "fast"]);
    // Single spaces only: doubled spaces make empty arguments, as in the
    // wire contract.
    assert_eq!(get_args_from_config("a  b").unwrap(), vec!["a", "", "b"]);
}

#[test]
fn config_args_reject_quotes() {
    assert!(get_args_from_config("--name \"x\"").is_err());
    assert!(get_args_from_config("it's").is_err());
    assert!(get_args_from_config("`cmd`").is_err());
}
