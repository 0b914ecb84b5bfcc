//! The command line.

use vyges_vt_swap::cli::{parse_cli, word_of, Word};

fn args(v: &[&str]) -> Vec<String> {
    v.iter().map(|s| s.to_string()).collect()
}

#[test]
fn cli_run_with_flags() {
    let c = parse_cli(&args(&["run", "top.vtswap", "-o", "out.v", "--json", "--fail-on-violation"]));
    assert_eq!(c.positionals, args(&["run", "top.vtswap"]));
    assert_eq!(c.out, Some("out.v".to_string()));
    assert!(c.json && c.fail_on_violation);
    assert!(!c.quiet && !c.verbose && !c.help && !c.version);
}

#[test]
fn cli_short_and_long_switches() {
    let c = parse_cli(&args(&["-q", "--verbose", "-h", "-V", "--bug-report", "--feature-request", "--sponsor", "--star"]));
    assert!(c.quiet && c.verbose && c.help && c.version);
    assert!(c.bug_report && c.feature_request && c.sponsor && c.star);
    assert!(c.positionals.is_empty());
    let c = parse_cli(&args(&["--quiet", "-v", "--help", "--version"]));
    assert!(c.quiet && c.verbose && c.help && c.version);
}

#[test]
fn cli_out_takes_next_word_even_a_flag() {
    let c = parse_cli(&args(&["demo", "-o", "--json"]));
    assert_eq!(c.out, Some("--json".to_string()));
    assert!(!c.json);
    assert_eq!(c.positionals, args(&["demo"]));
}

#[test]
fn cli_out_at_end_and_last_out_wins() {
    let c = parse_cli(&args(&["run", "j", "-o"]));
    assert_eq!(c.out, None);
    let c = parse_cli(&args(&["-o", "a.v", "run", "-o", "b.v"]));
    assert_eq!(c.out, Some("b.v".to_string()));
    assert_eq!(c.positionals, args(&["run"]));
    let c = parse_cli(&args(&["-o", "a.v", "-o"]));
    assert_eq!(c.out, None);
}

#[test]
fn cli_empty() {
    let c = parse_cli(&[]);
    assert!(c.positionals.is_empty());
    assert_eq!(c.out, None);
    assert!(!c.json && !c.help);
}

#[test]
fn cli_words() {
    assert_eq!(word_of("-o"), Word::Out);
    assert_eq!(word_of("--json"), Word::Json);
    assert_eq!(word_of("-Q"), Word::Positional);
    assert_eq!(word_of("--o"), Word::Positional);
    assert_eq!(word_of("check"), Word::Positional);
}

use vyges_vt_swap::cli::{command_of, Command};

#[test]
fn commands() {
    assert_eq!(command_of(&parse_cli(&args(&["run", "top.vtswap", "-o", "x.v"]))), Command::Run(Some("top.vtswap".to_string())));
    assert_eq!(command_of(&parse_cli(&args(&["run"]))), Command::Run(None));
    assert_eq!(command_of(&parse_cli(&args(&["check", "j"]))), Command::Check(Some("j".to_string())));
    assert_eq!(command_of(&parse_cli(&args(&["demo", "--json"]))), Command::Demo);
    assert_eq!(command_of(&parse_cli(&args(&["frob"]))), Command::Unknown("frob".to_string()));
    assert_eq!(command_of(&parse_cli(&args(&[]))), Command::Usage { code: 2 });
    assert_eq!(command_of(&parse_cli(&args(&["-h"]))), Command::Usage { code: 0 });
    assert_eq!(command_of(&parse_cli(&args(&["run", "j", "--help"]))), Command::Usage { code: 0 });
    assert_eq!(command_of(&parse_cli(&args(&["run", "-V"]))), Command::Version);
    assert_eq!(command_of(&parse_cli(&args(&["--version", "--star"]))), Command::Star);
    assert_eq!(command_of(&parse_cli(&args(&["--sponsor", "--bug-report"]))), Command::BugReport);
    assert_eq!(command_of(&parse_cli(&args(&["--feature-request", "--sponsor"]))), Command::FeatureRequest);
}

fn same(a: &[&str], b: &[&str]) -> bool {
    let (x, y) = (parse_cli(&args(a)), parse_cli(&args(b)));
    x.positionals == y.positionals
        && x.out == y.out
        && x.json == y.json
        && x.fail_on_violation == y.fail_on_violation
        && x.quiet == y.quiet
        && x.verbose == y.verbose
        && x.help == y.help
        && x.version == y.version
        && x.bug_report == y.bug_report
        && x.feature_request == y.feature_request
        && x.sponsor == y.sponsor
        && x.star == y.star
}

#[test]
fn cli_switch_spelling_place_and_repetition_do_not_matter() {
    assert!(same(&["run", "j.vtswap", "-q", "-v"], &["run", "j.vtswap", "--quiet", "--verbose"]));
    assert!(same(&["-q", "run", "j.vtswap"], &["run", "j.vtswap", "-q"]));
    assert!(same(&["run", "-q", "j.vtswap", "-q"], &["run", "j.vtswap", "-q"]));
    assert!(same(&["--json", "run", "-o", "x.v", "j"], &["run", "-o", "x.v", "j", "--json", "--json"]));
    // right after -o a switch is the output file, not a switch
    assert!(!same(&["run", "-o", "-q"], &["run", "-o", "--quiet"]));
}
