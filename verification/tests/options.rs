use brocade_agent::options::{
    parse_apply_mode, resolve_token, ApplyMode, Environment, Options, TokenSource,
};

fn args(list: &[&str]) -> Vec<String> {
    list.iter().map(|arg| (*arg).to_owned()).collect()
}

fn env(list: &[(&str, &str)]) -> Environment {
    let value = |name: &str| {
        list.iter()
            .find(|(key, _)| *key == name)
            .map(|(_, value)| (*value).to_owned())
    };
    Environment {
        server: value("BROCADE_AGENT_SERVER"),
        token: value("BROCADE_NODE_TOKEN"),
        token_file: value("BROCADE_NODE_TOKEN_FILE"),
        state_dir: value("BROCADE_AGENT_STATE_DIR"),
        apply: value("BROCADE_AGENT_APPLY"),
    }
}

/// The options and the token behind them; `file` is what the token's file holds.
fn parse(
    list: &[&str],
    environment: &[(&str, &str)],
    file: Result<&str, &str>,
) -> Result<(Options, String), String> {
    let options = Options::parse_with_env(&args(list), &env(environment))?;
    let token = resolve_token(&options.token, file)?;
    Ok((options, token))
}

const NO_FILE: Result<&str, &str> = Err("No such file or directory (os error 2)");

#[test]
fn the_default_command_is_a_single_pass() {
    let (options, _) = parse(&["--server", "http://c", "--token", "t"], &[], NO_FILE).unwrap();

    assert_eq!(options.command, "apply-once");
    assert_eq!(options.apply_mode, ApplyMode::StateDir);
    assert_eq!(options.state_dir, "./brocade-agent-state");
}

#[test]
fn linux_mode_is_never_the_default() {
    let (from_env, _) = parse(
        &["--server", "http://c", "--token", "t"],
        &[("BROCADE_AGENT_APPLY", "linux")],
        NO_FILE,
    )
    .unwrap();
    assert_eq!(from_env.apply_mode, ApplyMode::Linux, "环境变量该认");

    let error = parse(
        &["--server", "http://c", "--token", "t"],
        &[("BROCADE_AGENT_APPLY", "yes")],
        NO_FILE,
    )
    .unwrap_err();
    assert!(error.contains("unknown apply mode yes"), "实际 {error}");
}

#[test]
fn the_command_line_wins_over_the_environment() {
    let (options, token) = parse(
        &[
            "repair",
            "--server",
            "http://cli",
            "--token",
            "cli-token",
            "--state-dir",
            "/tmp/cli",
            "--apply",
            "linux",
        ],
        &[
            ("BROCADE_AGENT_SERVER", "http://env"),
            ("BROCADE_NODE_TOKEN", "env-token"),
            ("BROCADE_AGENT_STATE_DIR", "/tmp/env"),
            ("BROCADE_AGENT_APPLY", "state-dir"),
        ],
        NO_FILE,
    )
    .unwrap();

    assert_eq!(options.command, "repair");
    assert_eq!(options.server, "http://cli");
    assert_eq!(token, "cli-token");
    assert_eq!(options.state_dir, "/tmp/cli");
    assert_eq!(options.apply_mode, ApplyMode::Linux);
}

#[test]
fn everything_can_come_from_the_environment() {
    let (options, token) = parse(
        &[],
        &[
            ("BROCADE_AGENT_SERVER", "http://env"),
            ("BROCADE_NODE_TOKEN", "env-token"),
            ("BROCADE_AGENT_STATE_DIR", "/var/lib/brocade"),
        ],
        NO_FILE,
    )
    .unwrap();

    assert_eq!(options.server, "http://env");
    assert_eq!(token, "env-token");
    assert_eq!(options.state_dir, "/var/lib/brocade");
}

#[test]
fn an_empty_inline_token_falls_through_to_the_token_file() {
    let (options, token) = parse(
        &[],
        &[
            ("BROCADE_AGENT_SERVER", "http://c"),
            ("BROCADE_NODE_TOKEN", "   "),
            ("BROCADE_NODE_TOKEN_FILE", "/state/node.token"),
        ],
        Ok("broc_node_from_file\n"),
    )
    .unwrap();

    assert_eq!(
        options.token,
        TokenSource::File("/state/node.token".to_owned())
    );
    assert_eq!(token, "broc_node_from_file");
}

#[test]
fn a_missing_token_file_names_the_path() {
    let error = parse(
        &["--server", "http://c", "--token-file", "/nope/node.token"],
        &[],
        NO_FILE,
    )
    .unwrap_err();

    assert!(error.contains("/nope/node.token"), "实际 {error}");
    assert!(error.contains("failed to read token file"), "实际 {error}");
}

#[test]
fn a_blank_token_is_rejected_wherever_it_came_from() {
    let error = parse(&["--server", "http://c", "--token", "  "], &[], NO_FILE).unwrap_err();
    assert!(error.contains("must not be empty"), "实际 {error}");

    let error = parse(
        &["--server", "http://c", "--token-file", "/state/node.token"],
        &[],
        Ok("\n\n"),
    )
    .unwrap_err();
    assert!(error.contains("must not be empty"), "实际 {error}");
    assert!(error.contains("token file"), "要说清是哪一个来源");
}

#[test]
fn the_missing_input_error_says_how_to_supply_it() {
    let error = parse(&["--token", "t"], &[], NO_FILE).unwrap_err();
    assert!(
        error.contains("--server or BROCADE_AGENT_SERVER"),
        "实际 {error}"
    );

    let error = parse(&["--server", "http://c"], &[], NO_FILE).unwrap_err();
    assert!(error.contains("--token"), "实际 {error}");
    assert!(error.contains("BROCADE_NODE_TOKEN_FILE"), "实际 {error}");
}

#[test]
fn a_misspelled_option_stops_the_parse() {
    let error = parse(
        &["--sever", "http://c", "--token", "t"],
        &[("BROCADE_AGENT_SERVER", "http://env")],
        NO_FILE,
    )
    .unwrap_err();
    assert_eq!(error, "unknown option --sever");
}

#[test]
fn a_second_positional_argument_is_an_error() {
    let error = parse(
        &[
            "apply-once",
            "repair",
            "--server",
            "http://c",
            "--token",
            "t",
        ],
        &[],
        NO_FILE,
    )
    .unwrap_err();
    assert_eq!(error, "unexpected extra argument repair");
}

#[test]
fn an_option_without_a_value_names_itself() {
    for (missing, expected) in [
        ("--server", "--server requires a value"),
        ("--token", "--token requires a value"),
        ("--token-file", "--token-file requires a value"),
        ("--state-dir", "--state-dir requires a value"),
        ("--apply", "--apply requires state-dir or linux"),
    ] {
        let error = parse(&[missing], &[], NO_FILE).unwrap_err();
        assert_eq!(error, expected);
    }
}

#[test]
fn parses_linux_apply_mode() {
    let (options, _) = parse(
        &[
            "apply-once",
            "--server",
            "http://127.0.0.1:8080",
            "--token",
            "broc_node_test",
            "--apply",
            "linux",
        ],
        &[],
        NO_FILE,
    )
    .unwrap();

    assert_eq!(options.apply_mode, ApplyMode::Linux);
    assert_eq!(parse_apply_mode("state-dir").unwrap(), ApplyMode::StateDir);
}

#[test]
fn parses_token_file_and_rejects_missing_option_values() {
    let (_, token) = parse(
        &[
            "apply-once",
            "--server",
            "http://127.0.0.1:8080",
            "--token-file",
            "/state/node.token",
        ],
        &[],
        Ok("  broc_node_file\n"),
    )
    .unwrap();
    assert_eq!(token, "broc_node_file");

    let environment = [
        ("BROCADE_AGENT_SERVER", "http://127.0.0.1:8080"),
        ("BROCADE_NODE_TOKEN", "broc_node_env"),
    ];
    let error = parse(&["apply-once", "--server"], &environment, NO_FILE).unwrap_err();
    assert_eq!(error, "--server requires a value");

    let error = parse(&["apply-once", "--token"], &environment, NO_FILE).unwrap_err();
    assert_eq!(error, "--token requires a value");
}

#[test]
fn the_next_option_is_not_taken_for_a_missing_value() {
    for (args, expected) in [
        (["--server", "--token", "t"], "--server requires a value"),
        (["--token", "--server", "http://c"], "--token requires a value"),
        (["--token-file", "--token", "t"], "--token-file requires a value"),
        (["--state-dir", "--token", "t"], "--state-dir requires a value"),
        (["--apply", "--token", "t"], "--apply requires state-dir or linux"),
    ] {
        assert_eq!(parse(&args, &[], NO_FILE).unwrap_err(), expected);
    }
}
