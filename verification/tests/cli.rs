use cg2tools::{Cli, CliError, CliRequest};

fn tokens(input: &str) -> Vec<Vec<u8>> {
    shlex::split(input).unwrap().into_iter().map(|s| s.into_bytes()).collect()
}

fn cli(input: &str) -> Result<CliRequest, CliError> {
    Cli::try_from_tokens(&tokens(input))
}

fn expect_run(r: Result<CliRequest, CliError>) -> Cli {
    match r {
        Ok(CliRequest::Run { cli }) => cli,
        other => panic!("expected a run request, got {other:?}"),
    }
}

#[test]
fn test_cli() {
    assert!(matches!(cli("cg2exec"), Err(CliError::MissingCgroup { .. })));
    assert!(matches!(cli("cg2exec grp"), Err(CliError::MissingCommand { .. })));

    let parsed = expect_run(cli("cg2exec grp cmd"));
    assert_eq!(parsed.cgroup, b"grp".to_vec());
    assert_eq!(parsed.cmd, b"cmd".to_vec());
    assert_eq!(parsed.args, Vec::<Vec<u8>>::new());

    let parsed = expect_run(cli("cg2exec grp cmd extra"));
    assert_eq!(parsed.args, vec![b"extra".to_vec()]);

    match cli("cg2exec --flag grp cmd") {
        Err(CliError::Unexpected { arg, .. }) => assert_eq!(arg, b"--flag".to_vec()),
        other => panic!("expected the flag to be rejected, got {other:?}"),
    }
    match cli("cg2exec grp --flag cmd") {
        Err(CliError::Unexpected { arg, .. }) => assert_eq!(arg, b"--flag".to_vec()),
        other => panic!("expected the flag to be rejected, got {other:?}"),
    }

    let parsed = expect_run(cli("cg2exec grp cmd --flag"));
    assert_eq!(parsed.args, vec![b"--flag".to_vec()]);

    let parsed = expect_run(cli("cg2exec -- grp cmd extra"));
    assert_eq!(parsed.cgroup, b"grp".to_vec());
    assert_eq!(parsed.cmd, b"cmd".to_vec());
    assert_eq!(parsed.args, vec![b"extra".to_vec()]);

    match cli("cg2exec grp -- cmd extra") {
        Err(CliError::Unexpected { arg, .. }) => assert_eq!(arg, b"--".to_vec()),
        other => panic!("expected the separator to be rejected, got {other:?}"),
    }

    let parsed = expect_run(cli("cg2exec grp cmd -- extra"));
    assert_eq!(parsed.args, vec![b"--".to_vec(), b"extra".to_vec()]);

    let parsed = expect_run(cli("cg2exec grp cmd extra --"));
    assert_eq!(parsed.args, vec![b"extra".to_vec(), b"--".to_vec()]);

    let parsed = expect_run(cli("cg2exec -- -grp -cmd -extra"));
    assert_eq!(parsed.cgroup, b"-grp".to_vec());
    assert_eq!(parsed.cmd, b"-cmd".to_vec());
    assert_eq!(parsed.args, vec![b"-extra".to_vec()]);
}

#[test]
fn test_cli_help_and_version() {
    match cli("cg2exec --help") {
        Ok(CliRequest::Help { bin_name }) => assert_eq!(bin_name, b"cg2exec".to_vec()),
        other => panic!("expected a help request, got {other:?}"),
    }
    assert!(matches!(cli("cg2exec --help=x"), Ok(CliRequest::Help { .. })));
    assert!(matches!(cli("cg2exec --version"), Ok(CliRequest::Version)));
    assert!(matches!(cli("cg2exec --version=1"), Ok(CliRequest::Version)));
    // A longer flag that merely starts with the word is not the word.
    assert!(matches!(cli("cg2exec --helper"), Err(CliError::Unexpected { .. })));
    // A lone dash is rejected where the group is expected.
    match cli("cg2exec - cmd") {
        Err(CliError::Unexpected { arg, .. }) => assert_eq!(arg, b"-".to_vec()),
        other => panic!("expected the dash to be rejected, got {other:?}"),
    }
    // After the escape, even a missing group or command is reported as such.
    assert!(matches!(cli("cg2exec --"), Err(CliError::MissingCgroup { .. })));
    assert!(matches!(cli("cg2exec -- grp"), Err(CliError::MissingCommand { .. })));
}
