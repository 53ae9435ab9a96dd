use calmake::config::parse_config;
use calmake::graph::{BuildGraph, SourceEntry};
use calmake::paths::{
    cached_import_lib_for, depfile_path_for, dll_to_lib_path, expected_artifacts, extension,
    file_name, is_artifact_path, is_source_path, is_stale_artifact, normalize, obj_path_for,
};

#[test]
fn cache_paths_flatten_the_source_path() {
    assert_eq!(obj_path_for("src/main.cpp", false), ".calmake/cache/obj/src_main.cpp.o");
    assert_eq!(obj_path_for("a\\b/c.c", false), ".calmake/cache/obj/a_b_c.c.o");
    assert_eq!(obj_path_for("", false), ".calmake/cache/obj/unknown.o");
    assert_eq!(depfile_path_for("src/main.cpp", false), ".calmake/cache/deps/src_main.cpp.d");
    assert_eq!(depfile_path_for("", false), ".calmake/cache/deps/unknown.d");
}

#[test]
fn import_library_path() {
    let cfg = parse_config("target core {\noutput = bin/core.dll\nsources = a.c\nkind = sharedlib\n}\ntarget x.lib {\noutput = o\nsources = a.c\n}\n").unwrap();
    let found: Vec<Vec<SourceEntry>> = vec![vec![SourceEntry::File], vec![SourceEntry::File]];
    let g = BuildGraph::from_config(&cfg, &found).unwrap();
    assert_eq!(cached_import_lib_for(&g.targets()[0], false), ".calmake/cache/lib/core.lib");
    assert_eq!(cached_import_lib_for(&g.targets()[1], false), ".calmake/cache/lib/x.lib");
}

#[test]
fn file_names_like_path() {
    assert_eq!(file_name("bin/hello", false).as_deref(), Some("hello"));
    assert_eq!(file_name("a/b/", false).as_deref(), Some("b"));
    assert_eq!(file_name("a/./.", false).as_deref(), Some("a"));
    assert_eq!(file_name("a/..", false), None);
    assert_eq!(file_name("/", false), None);
    assert_eq!(file_name(".", false), None);
    assert_eq!(file_name("", false), None);
}

#[test]
fn extensions_like_path() {
    assert_eq!(extension("src/main.CPP", false).as_deref(), Some("CPP"));
    assert_eq!(extension("archive.tar.gz", false).as_deref(), Some("gz"));
    assert_eq!(extension(".bashrc", false), None);
    assert_eq!(extension("noext", false), None);
    assert_eq!(extension("trailing.", false).as_deref(), Some(""));
    assert_eq!(extension("..x", false).as_deref(), Some("x"));
}

#[test]
fn source_and_artifact_filters() {
    assert!(is_source_path("a/b.c", false));
    assert!(is_source_path("a/b.CC", false));
    assert!(is_source_path("b.cxx", false));
    assert!(is_source_path("b.Cpp", false));
    assert!(!is_source_path("b.h", false));
    assert!(!is_source_path("c", false));
    assert!(is_artifact_path("bin/x.DLL", false));
    assert!(is_artifact_path("bin/x.so", false));
    assert!(!is_artifact_path("bin/x.o", false));
}

#[test]
fn normalize_keeps_absolute_paths() {
    assert_eq!(normalize("bin", "bin/hello", false), "bin/hello");
    assert_eq!(normalize("bin", "./out/deep/app.exe", false), "bin/app.exe");
    assert_eq!(normalize("bin", "/abs/app", false), "/abs/app");
    assert_eq!(normalize("bin", "..", false), "bin/");
}

#[test]
fn dll_becomes_lib() {
    assert_eq!(dll_to_lib_path("bin/core.dll"), "bin/core.lib");
    assert_eq!(dll_to_lib_path("a.dll.dll"), "a.lib.lib");
    assert_eq!(dll_to_lib_path("x.so"), "x.so");
}

#[test]
fn stale_artifacts_are_unlisted_outputs() {
    let cfg = parse_config("target core {\noutput = bin/core.dll\nsources = a.c\nkind = sharedlib\n}\ntarget app {\noutput = bin/app.exe\nsources = a.c\n}\n").unwrap();
    let found: Vec<Vec<SourceEntry>> = vec![vec![SourceEntry::File], vec![SourceEntry::File]];
    let g = BuildGraph::from_config(&cfg, &found).unwrap();
    let expected = expected_artifacts(&g, true);
    assert_eq!(
        expected,
        vec!["bin\\core.dll".to_string(), "bin\\core.lib".to_string(), "bin\\app.exe".to_string()]
    );
    // On Windows the listing of `bin` gives `bin\x` paths.
    assert!(!is_stale_artifact("bin\\core.lib", &expected, true));
    assert!(!is_stale_artifact("bin\\core.dll", &expected, true));
    assert!(!is_stale_artifact("bin\\app.exe", &expected, true));
    assert!(!is_stale_artifact("bin/app.exe", &expected, true));
    assert!(is_stale_artifact("bin\\old.exe", &expected, true));
    assert!(!is_stale_artifact("bin\\notes.txt", &expected, true));
    let unix = expected_artifacts(&g, false);
    assert_eq!(unix, vec!["bin/core.dll".to_string(), "bin/app.exe".to_string()]);
    assert!(is_stale_artifact("bin/core.lib", &unix, false));
    assert!(!is_stale_artifact("bin/app.exe", &unix, false));
}

#[test]
fn normalizing_twice_is_normalizing_once() {
    for p in ["bin/hello", "hello", "out/lib/libx.so", "/abs/x.so", "a/./b.dll"] {
        let once = normalize("bin", p, false);
        assert_eq!(normalize("bin", &once, false), once);
    }
    assert_eq!(normalize("bin", "..", false), "bin/");
    assert_eq!(normalize("bin", "bin/", false), "bin/bin");
}

#[test]
fn windows_paths_split_at_both_separators() {
    assert_eq!(file_name("bin\\hello.exe", true).as_deref(), Some("hello.exe"));
    assert_eq!(file_name("bin\\hello.exe", false).as_deref(), Some("bin\\hello.exe"));
    assert_eq!(file_name("C:foo.dll", true).as_deref(), Some("foo.dll"));
    assert_eq!(file_name("C:", true), None);
    assert_eq!(extension("src.v2\\noext", true), None);
    assert!(is_source_path("src\\Main.CPP", true));
    assert_eq!(normalize("bin", "bin\\a.so", true), "bin\\a.so");
    assert_eq!(normalize("bin", "out/x/a.so", true), "bin\\a.so");
    assert_eq!(normalize("bin", "C:\\out\\a.dll", true), "C:\\out\\a.dll");
    assert_eq!(normalize("bin", "\\\\srv\\share\\a.dll", true), "\\\\srv\\share\\a.dll");
    assert_eq!(normalize("bin", "\\temp\\a.dll", true), "bin\\a.dll");
    assert_eq!(normalize("bin\\", "a.dll", true), "bin\\a.dll");
    assert_eq!(normalize("C:", "x\\a.dll", true), "C:a.dll");
    assert_eq!(normalize("bin", "/abs/a.so", true), "bin\\a.so");
    let expected = vec![normalize("bin", "bin/a.so", true)];
    assert!(!is_stale_artifact("bin\\a.so", &expected, true));
    for p in ["bin\\hello.exe", "x/y\\z.dll", "C:\\a\\b.lib", "C:rel.exe"] {
        let once = normalize("bin", p, true);
        assert_eq!(normalize("bin", &once, true), once);
    }
    assert_eq!(normalize("bin", "..", true), "bin\\");
}

#[test]
fn cache_paths_join_as_the_platform_does() {
    assert_eq!(obj_path_for("src\\main.cpp", true), ".calmake/cache/obj\\src_main.cpp.o");
    assert_eq!(depfile_path_for("src/main.cpp", true), ".calmake/cache/deps\\src_main.cpp.d");
    // A flattened name that begins with a drive replaces the directory on Windows.
    assert_eq!(obj_path_for("C:main.c", true), "C:main.c.o");
    assert_eq!(obj_path_for("C:main.c", false), ".calmake/cache/obj/C:main.c.o");
    let cfg = parse_config("target core {\noutput = bin/core.dll\nsources = a.c\nkind = sharedlib\n}\n").unwrap();
    let g = BuildGraph::from_config(&cfg, &vec![vec![SourceEntry::File]]).unwrap();
    assert_eq!(cached_import_lib_for(&g.targets()[0], true), ".calmake/cache/lib\\core.lib");
}
