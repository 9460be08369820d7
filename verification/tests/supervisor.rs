//! Cgroup naming and the child command line.

use ai_tournament::parse::parse_u64_digits;
use ai_tournament::parse::split_str;
use ai_tournament::supervisor::build_client_argv;
use ai_tournament::supervisor::get_cgroup_path;

#[test]
fn cgroup_path_sits_in_the_user_slice() {
    assert_eq!(
        get_cgroup_path("1000", "match_7"),
        "user.slice/user-1000.slice/user@1000.service/match_7"
    );
}

#[test]
fn client_argv_follows_the_wire_contract() {
    let extra = vec!["--mode".to_string(), "fast".to_string()];
    let argv = build_client_argv("0,2", "agents/rock", 8080, 600_000_000, 200_000, &extra);
    assert_eq!(
        argv,
        vec![
            "taskset",
            "-c",
            "0,2",
            "agents/rock",
            "8080",
            "600000000",
            "200000",
            "--mode",
            "fast"
        ]
    );
}

#[test]
fn rendered_numbers_parse_back() {
    let argv = build_client_argv("1", "a", 65535, u64::MAX, 0, &Vec::new());
    assert_eq!(parse_u64_digits(&argv[4]), Some(65535));
    assert_eq!(parse_u64_digits(&argv[5]), Some(u64::MAX));
    assert_eq!(parse_u64_digits(&argv[6]), Some(0));
    assert_eq!(parse_u64_digits("not a number"), None);
    assert_eq!(parse_u64_digits(""), None);
}

#[test]
fn split_matches_std_behaviour() {
    let parts = split_str("0-3,6,", ',');
    assert_eq!(parts, vec!["0-3", "6", ""]);
    assert_eq!(split_str("", ','), vec![""]);
}
