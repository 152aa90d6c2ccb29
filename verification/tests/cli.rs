use zappy_server::cli::{parse, CliError, DEFAULT_T, USAGE};


fn v(tokens: &[&str]) -> Vec<String> {
    tokens.iter().map(|s| (*s).to_string()).collect()
}

#[test]
fn parses_full_valid_line() {
    let args = v(&[
        "-p", "8080", "-x", "10", "-y", "10", "-c", "5", "-n", "team1", "team2", "-t", "100",
    ]);
    let cfg = parse(&args).expect("should parse");
    assert_eq!(cfg.port, 8080);
    assert_eq!(cfg.width, 10);
    assert_eq!(cfg.height, 10);
    assert_eq!(cfg.clients_per_team, 5);
    assert_eq!(cfg.teams, vec!["team1".to_string(), "team2".to_string()]);
    assert_eq!(cfg.t, 100);
}

#[test]
fn t_defaults_to_100_when_omitted() {
    let args = v(&["-p", "4242", "-x", "5", "-y", "6", "-c", "3", "-n", "solo"]);
    let cfg = parse(&args).expect("should parse");
    assert_eq!(cfg.t, DEFAULT_T);
    assert_eq!(cfg.t, 100);
}

#[test]
fn flags_may_appear_in_any_order() {
    let args = v(&[
        "-n", "a", "b", "-t", "10", "-c", "2", "-y", "8", "-x", "7", "-p", "9000",
    ]);
    let cfg = parse(&args).expect("should parse");
    assert_eq!(cfg.port, 9000);
    assert_eq!(cfg.width, 7);
    assert_eq!(cfg.height, 8);
    assert_eq!(cfg.t, 10);
    assert_eq!(cfg.teams, vec!["a".to_string(), "b".to_string()]);
}

#[test]
fn single_team_is_valid() {
    let args = v(&["-p", "1", "-x", "1", "-y", "1", "-c", "1", "-n", "only"]);
    assert_eq!(parse(&args).unwrap().teams, vec!["only".to_string()]);
}

#[test]
fn empty_args_is_no_args() {
    let empty: Vec<String> = Vec::new();
    assert_eq!(parse(&empty), Err(CliError::NoArgs));
}

#[test]
fn missing_required_flag_errors() {
    // No -p.
    let args = v(&["-x", "10", "-y", "10", "-c", "5", "-n", "team"]);
    assert_eq!(parse(&args), Err(CliError::MissingFlag("-p")));
}

#[test]
fn missing_teams_errors() {
    let args = v(&["-p", "8080", "-x", "10", "-y", "10", "-c", "5"]);
    assert_eq!(parse(&args), Err(CliError::MissingFlag("-n")));
}

#[test]
fn dash_n_with_no_names_errors() {
    let args = v(&["-p", "8080", "-x", "10", "-y", "10", "-c", "5", "-n"]);
    assert_eq!(parse(&args), Err(CliError::NoTeams));
}

#[test]
fn dash_n_immediately_before_flag_errors() {
    let args = v(&["-n", "-p", "8080", "-x", "10", "-y", "10", "-c", "5"]);
    assert_eq!(parse(&args), Err(CliError::NoTeams));
}

#[test]
fn missing_value_errors() {
    let args = v(&["-p"]);
    assert_eq!(parse(&args), Err(CliError::MissingValue("-p".to_string())));
}

#[test]
fn value_that_is_a_flag_counts_as_missing() {
    let args = v(&["-p", "-x", "10", "-y", "10", "-c", "5", "-n", "team"]);
    assert_eq!(parse(&args), Err(CliError::MissingValue("-p".to_string())));
}

#[test]
fn non_numeric_value_errors() {
    let args = v(&["-p", "abc", "-x", "10", "-y", "10", "-c", "5", "-n", "team"]);
    assert_eq!(
        parse(&args),
        Err(CliError::InvalidValue {
            flag: "-p".to_string(),
            value: "abc".to_string()
        })
    );
}

#[test]
fn zero_and_out_of_range_values_error() {
    let zero_width = v(&["-p", "8080", "-x", "0", "-y", "10", "-c", "5", "-n", "team"]);
    assert_eq!(
        parse(&zero_width),
        Err(CliError::InvalidValue {
            flag: "-x".to_string(),
            value: "0".to_string()
        })
    );

    // Port 0 is reserved; port above u16 range is invalid.
    let big_port = v(&[
        "-p", "70000", "-x", "10", "-y", "10", "-c", "5", "-n", "team",
    ]);
    assert_eq!(
        parse(&big_port),
        Err(CliError::InvalidValue {
            flag: "-p".to_string(),
            value: "70000".to_string()
        })
    );
}

#[test]
fn unknown_flag_errors() {
    let args = v(&[
        "-z", "1", "-p", "8080", "-x", "10", "-y", "10", "-c", "5", "-n", "team",
    ]);
    assert_eq!(parse(&args), Err(CliError::Unknown("-z".to_string())));
}

#[test]
fn duplicate_single_value_flag_errors() {
    let args = v(&[
        "-p", "8080", "-p", "9090", "-x", "10", "-y", "10", "-c", "5", "-n", "team",
    ]);
    assert_eq!(parse(&args), Err(CliError::DuplicateFlag("-p".to_string())));
}

#[test]
fn duplicate_team_name_errors() {
    let args = v(&[
        "-p", "8080", "-x", "10", "-y", "10", "-c", "5", "-n", "team", "team",
    ]);
    assert_eq!(
        parse(&args),
        Err(CliError::DuplicateTeam("team".to_string()))
    );
}

#[test]
fn usage_text_matches_audit_lines() {
    for line in [
        " Usage: ./server -p <port> -x <width> -y <height> -n <team> [<team>] [<team>] ... -c <nb> [-t <t>]",
        " -p port number",
        " -x world width",
        " -y world height",
        " -n team_name_1 team_name_2 ...",
        " -c number of clients authorized at the beginning of the game",
        " -t [100] time unit divider (the greater t is, the faster the game will go)",
    ] {
        assert!(USAGE.contains(line), "usage missing line: {line}");
    }
}
