use calmake::cli::parse_args;
use calmake::config::parse_config;
use calmake::error::CalmakeError;
use calmake::graph::{BuildGraph, SourceEntry};
use calmake::toolchain::{compiler_candidates, detect_compiler};

fn config_message(src: &str) -> String {
    parse_config(src).unwrap_err().message()
}

#[test]
fn config_error_messages() {
    assert_eq!(config_message("# only a comment\n\n   \n"), "no targets defined in build.cal");
    assert_eq!(config_message("target a {\noutput = x\nsources = a.c\n"), "unterminated target block");
    assert_eq!(config_message("target a {\ntarget b {\n}\n}\n"), "line 2: nested target not allowed");
    assert_eq!(config_message("\n}\n"), "line 2: stray `}`");
    assert_eq!(config_message("target a {\noutput = a\nsources = []\n}"), "target `a` has no `sources`");
    assert_eq!(config_message("target a {\nkind = dll\n}"), "line 2: invalid kind `dll`");
    assert_eq!(config_message("target a {\nlanguage = rust\n}"), "line 2: invalid language `rust`");
    assert_eq!(config_message("target a {\nname = x\n}"), "line 2: unknown key `name` in target `a`");
    assert_eq!(config_message("target  {\n}"), "line 1: target name missing");
    assert_eq!(config_message("output = x\n"), "line 1: key outside of target block");
    assert_eq!(config_message("target a {\njunk\n}"), "line 2: expected `key = value`");
    assert_eq!(config_message("target a {\nsources = a.c\n}"), "target `a` missing `output`");
    let long = format!("{}}}\n", "\n".repeat(1234));
    assert_eq!(config_message(&long), "line 1235: stray `}`");
}

#[test]
fn graph_error_messages() {
    let cfg = parse_config("target a {\noutput = a\nsources = a.c\ndeps = b\n}").unwrap();
    let e = BuildGraph::from_config(&cfg, &vec![vec![SourceEntry::File]]).unwrap_err();
    assert_eq!(e.message(), "target `a` depends on nonexistent target `b`");
    let cfg = parse_config("target a {\noutput = a\nsources = src\n}").unwrap();
    let e = BuildGraph::from_config(&cfg, &vec![vec![SourceEntry::Directory(vec![])]]).unwrap_err();
    assert_eq!(e.message(), "target `a` has no sources after discovery");
    let cfg = parse_config(
        "target a {\noutput = a\nsources = a.c\ndeps = b\n}\ntarget b {\noutput = b\nsources = b.c\ndeps = a\n}",
    )
    .unwrap();
    let g = BuildGraph::from_config(&cfg, &vec![vec![SourceEntry::File], vec![SourceEntry::File]]).unwrap();
    assert_eq!(g.topo_sort().unwrap_err().message(), "Cyclic dependency detected!");
}

#[test]
fn command_line_messages() {
    let none: Vec<String> = vec![];
    assert_eq!(
        parse_args(&none).unwrap_err().message(),
        "no command given (use `calmake`, `calmake init`, or `calmake graph` or `calmake build`)"
    );
    let bad = vec!["-v".to_string(), "frobnicate".to_string()];
    assert_eq!(
        parse_args(&bad).unwrap_err().message(),
        "unknown command `frobnicate` (use `calmake`, `calmake init`, or `calmake graph` or `calmake build`)"
    );
}

#[test]
fn toolchain_and_gathered_messages() {
    let c = compiler_candidates(false);
    let e = detect_compiler(&c, &vec![false; c.len()]).unwrap_err();
    assert!(e.message().starts_with("no supported compiler found (tried clang++, clang, g++, cl). Install LLVM/Clang"));
    assert!(e.message().ends_with("should work).\n         "));
    let all = CalmakeError::Toolchain(e);
    assert!(all.message().starts_with("no supported compiler found"));
    let cfg_err = parse_config("\n}\n").unwrap_err();
    assert_eq!(CalmakeError::Config(cfg_err).message(), "line 2: stray `}`");
}
