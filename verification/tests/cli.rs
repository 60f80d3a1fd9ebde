use harpy::cli::{resolve_run_mode, Args, RunMode};
use harpy::hc::cli as hc;

fn args(file: Option<&str>, tokens: bool, version: bool) -> Args {
    Args {
        file: file.map(|f| f.to_string()),
        tokens,
        version,
        input: "generated.rs".to_string(),
        output: "output".to_string(),
    }
}

#[test]
fn tokens_with_a_file() {
    match resolve_run_mode(&args(Some("main.hp"), true, false)) {
        RunMode::Tokens { file } => assert_eq!(file, "main.hp"),
        _ => panic!("expected tokens mode"),
    }
}

#[test]
fn version_wins() {
    assert!(matches!(resolve_run_mode(&args(Some("m.hp"), true, true)), RunMode::Version));
    assert!(matches!(resolve_run_mode(&args(None, false, true)), RunMode::Version));
}

#[test]
fn a_file_alone_is_compiled() {
    match resolve_run_mode(&args(Some("main.hp"), false, false)) {
        RunMode::Compile { file, input, output } => {
            assert_eq!(file, "main.hp");
            assert_eq!(input, "generated.rs");
            assert_eq!(output, "output");
        }
        _ => panic!("expected compile mode"),
    }
}

#[test]
fn no_file_is_nothing_to_do() {
    assert!(matches!(resolve_run_mode(&args(None, true, false)), RunMode::NoInput));
    assert!(matches!(resolve_run_mode(&args(None, false, false)), RunMode::NoInput));
}

#[test]
fn route_compiler_modes() {
    let a = |file: Option<&str>, tokens, version| hc::Args {
        file: file.map(|f| f.to_string()),
        tokens,
        version,
    };
    assert!(matches!(hc::resolve_run_mode(a(Some("x"), true, false)), hc::RunMode::Tokens { file } if file == "x"));
    assert!(matches!(hc::resolve_run_mode(a(Some("x"), false, false)), hc::RunMode::Compile { file } if file == "x"));
    assert!(matches!(hc::resolve_run_mode(a(None, false, true)), hc::RunMode::Version));
    assert!(matches!(hc::resolve_run_mode(a(None, true, false)), hc::RunMode::NoInput));
}
