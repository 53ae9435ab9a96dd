use calmake::config::{
    parse_config, parse_list, parse_list_or_word, trim_string, ConfigError, Language, TargetKind,
};

const SAMPLE: &str = r#"target libcallum {
    kind = sharedlib
    language = cpp
    sources = ["libcallum"]
    deps = []
    output = "bin/libcallum.so"
    cppflags = []
    ldflags = []
}

target hello {
    kind = exe
    language = cpp
    sources = ["src"]
    deps = ["libcallum"]
    output = "bin/hello"
    cppflags = ["-Iinclude", "-Ilibcallum"]
    ldflags = []
}
"#;

fn strs(v: &[&str]) -> Vec<String> {
    v.iter().map(|s| s.to_string()).collect()
}

#[test]
fn parses_sample_project() {
    let cfg = parse_config(SAMPLE).unwrap();
    assert_eq!(cfg.targets.len(), 2);
    let (name, lib) = &cfg.targets[0];
    assert_eq!(name, "libcallum");
    assert_eq!(lib.kind, TargetKind::Sharedlib);
    assert_eq!(lib.language, Language::Cpp);
    assert_eq!(lib.sources, strs(&["libcallum"]));
    assert!(lib.deps.is_empty());
    assert_eq!(lib.output, "bin/libcallum.so");
    let (name, hello) = &cfg.targets[1];
    assert_eq!(name, "hello");
    assert_eq!(hello.kind, TargetKind::Exe);
    assert_eq!(hello.deps, strs(&["libcallum"]));
    assert_eq!(hello.cppflags, strs(&["-Iinclude", "-Ilibcallum"]));
    assert!(hello.cflags.is_empty());
}

#[test]
fn defaults_comments_and_crlf() {
    let src = "# a comment\r\n\r\ntarget t {\r\n  output = out\r\n  sources = a.c b.c\r\n}\r\n";
    let cfg = parse_config(src).unwrap();
    let (name, t) = &cfg.targets[0];
    assert_eq!(name, "t");
    assert_eq!(t.kind, TargetKind::Exe);
    assert_eq!(t.language, Language::Cpp);
    assert_eq!(t.sources, strs(&["a.c", "b.c"]));
    assert_eq!(t.output, "out");
}

#[test]
fn later_definition_replaces_earlier() {
    let src = "target a {\noutput = x\nsources = s\n}\ntarget b {\noutput = y\nsources = s\n}\ntarget a {\noutput = z\nsources = s\nlanguage = c\n}\n";
    let cfg = parse_config(src).unwrap();
    assert_eq!(cfg.targets.len(), 2);
    assert_eq!(cfg.targets[0].0, "a");
    assert_eq!(cfg.targets[0].1.output, "z");
    assert_eq!(cfg.targets[0].1.language, Language::C);
    assert_eq!(cfg.targets[1].0, "b");
}

#[test]
fn value_after_first_equals_sign() {
    let src = "target a {\noutput = x=y\nsources = s\ncflags = -DX=1\n}\n";
    let cfg = parse_config(src).unwrap();
    assert_eq!(cfg.targets[0].1.output, "x=y");
    assert_eq!(cfg.targets[0].1.cflags, strs(&["-DX=1"]));
}

fn err(src: &str) -> ConfigError {
    match parse_config(src) {
        Err(e) => e,
        Ok(_) => panic!("accepted: {src:?}"),
    }
}

#[test]
fn errors_carry_line_numbers() {
    assert!(matches!(err("target a {\ntarget b {\n"), ConfigError::NestedTarget { line: 2 }));
    assert!(matches!(err("\ntarget  {\n"), ConfigError::MissingTargetName { line: 2 }));
    assert!(matches!(err("}\n"), ConfigError::StrayBrace { line: 1 }));
    assert!(matches!(err("kind = exe\n"), ConfigError::KeyOutsideTarget { line: 1 }));
    assert!(matches!(err("target a {\n  sources\n}\n"), ConfigError::ExpectedKeyValue { line: 2 }));
}

#[test]
fn invalid_values_and_keys() {
    match err("target a {\nkind = \"dll\"\n}\n") {
        ConfigError::InvalidKind { line, value } => {
            assert_eq!(line, 2);
            assert_eq!(value, "dll");
        }
        e => panic!("{e:?}"),
    }
    match err("target a {\nlanguage = rust\n}\n") {
        ConfigError::InvalidLanguage { line, value } => {
            assert_eq!(line, 2);
            assert_eq!(value, "rust");
        }
        e => panic!("{e:?}"),
    }
    match err("target a {\n\ncolour = red\n}\n") {
        ConfigError::UnknownKey { line, key, target } => {
            assert_eq!(line, 3);
            assert_eq!(key, "colour");
            assert_eq!(target, "a");
        }
        e => panic!("{e:?}"),
    }
}

#[test]
fn incomplete_targets_and_files() {
    match err("target a {\nsources = s\n}\n") {
        ConfigError::MissingOutput { target } => assert_eq!(target, "a"),
        e => panic!("{e:?}"),
    }
    match err("target a {\noutput = o\n}\n") {
        ConfigError::NoSources { target } => assert_eq!(target, "a"),
        e => panic!("{e:?}"),
    }
    match err("target a {\noutput = o\nsources = []\n}\n") {
        ConfigError::NoSources { target } => assert_eq!(target, "a"),
        e => panic!("{e:?}"),
    }
    assert!(matches!(err("target a {\noutput = o\nsources = s\n"), ConfigError::UnterminatedTarget));
    assert!(matches!(err("# nothing\n\n"), ConfigError::NoTargets));
    assert!(matches!(err(""), ConfigError::NoTargets));
}

#[test]
fn trim_string_cases() {
    assert_eq!(trim_string("  \"bin/app\"  "), "bin/app");
    assert_eq!(trim_string("plain"), "plain");
    assert_eq!(trim_string("\""), "\"");
    assert_eq!(trim_string("\"\""), "");
    assert_eq!(trim_string("\" spaced \""), " spaced ");
    assert_eq!(trim_string("\"half"), "\"half");
}

#[test]
fn parse_list_or_word_cases() {
    assert!(parse_list_or_word("   ").is_empty());
    assert!(parse_list_or_word("[]").is_empty());
    assert!(parse_list_or_word("[   ]").is_empty());
    assert_eq!(parse_list_or_word("[\"a\", b ,\"c d\"]"), strs(&["a", "b", "c d"]));
    assert_eq!(parse_list_or_word("x  \"y\"\tz"), strs(&["x", "y", "z"]));
    assert_eq!(parse_list_or_word("[a,]"), strs(&["a", ""]));
}

#[test]
fn parse_list_cases() {
    assert_eq!(parse_list("[a, b]"), strs(&["a", "b"]));
    assert!(parse_list("[]").is_empty());
    assert_eq!(parse_list("(x)"), strs(&["x"]));
}

#[test]
fn unicode_whitespace_is_trimmed() {
    assert_eq!(trim_string("\u{a0}\u{2003}value\u{3000}"), "value");
    assert_eq!(parse_list_or_word("a\u{2009}b"), strs(&["a", "b"]));
    let cfg = parse_config("\u{feff}# bom is not whitespace\n").unwrap_err();
    assert!(matches!(cfg, ConfigError::KeyOutsideTarget { line: 1 }));
}

#[test]
fn blank_and_comment_lines_change_nothing() {
    let base = "target a {\noutput = a\nsources = a.c\n}\n";
    let with = "# header\ntarget a {\n\n   # note\noutput = a\n\t\nsources = a.c\n}\n\n";
    let c1 = parse_config(base).unwrap();
    let c2 = parse_config(with).unwrap();
    assert_eq!(c1.targets.len(), c2.targets.len());
    assert_eq!(c1.targets[0].0, c2.targets[0].0);
    assert_eq!(c1.targets[0].1.output, c2.targets[0].1.output);
    assert_eq!(c1.targets[0].1.sources, c2.targets[0].1.sources);
    assert!(parse_config("target a {\n# x\noutput = a\n").is_err());
}
