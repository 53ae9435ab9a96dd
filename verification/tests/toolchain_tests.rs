use calmake::config::parse_config;
use calmake::graph::{BuildGraph, SourceEntry};
use calmake::toolchain::{
    compile_command, compile_database, compiler_candidates, detect_compiler, import_lib_copy,
    link_command, program_file_names, CommandLine, Compiler, CompilerKind, ToolchainError,
};
use calmake::util::{comparenums, pretty_cmd};

fn strs(v: &[&str]) -> Vec<String> {
    v.iter().map(|s| s.to_string()).collect()
}

const PROJECT: &str = "target core {\nkind = sharedlib\noutput = bin/core.dll\nsources = core.c\nlanguage = c\ncflags = -O2\n}\n\
target app {\nkind = exe\noutput = bin/app\nsources = main.cpp\ndeps = core\ncppflags = -Iinc\nldflags = -lm\n}\n\
target ar {\nkind = staticlib\noutput = bin/libar.a\nsources = x.c\n}\n";

fn graph() -> BuildGraph {
    let cfg = parse_config(PROJECT).unwrap();
    let found: Vec<Vec<SourceEntry>> = cfg.targets.iter().map(|_| vec![SourceEntry::File]).collect();
    BuildGraph::from_config(&cfg, &found).unwrap()
}

fn compiler(kind: CompilerKind, exe: &str) -> Compiler {
    Compiler { kind, exe: exe.to_string() }
}

#[test]
fn compile_commands_per_compiler() {
    let g = graph();
    let app = &g.targets()[1];
    let core = &g.targets()[0];
    let c = compile_command(&compiler(CompilerKind::ClangC, "clang"), app, "main.cpp", "m.o", "m.d");
    assert_eq!(c.program, "clang");
    assert_eq!(c.args, strs(&["-x", "c++", "-Iinc", "-MMD", "-MF", "m.d", "-c", "main.cpp", "-o", "m.o"]));
    let c = compile_command(&compiler(CompilerKind::Gpp, "g++"), core, "core.c", "c.o", "c.d");
    assert_eq!(c.args, strs(&["-O2", "-MMD", "-MF", "c.d", "-c", "core.c", "-o", "c.o"]));
    let c = compile_command(&compiler(CompilerKind::Cl, "cl"), app, "main.cpp", "m.obj", "m.d");
    assert_eq!(c.program, "cl");
    assert_eq!(c.args, strs(&["/nologo", "/EHsc", "-Iinc", "/c", "main.cpp", "/Fo:m.obj"]));
    let c = compile_command(&compiler(CompilerKind::Cl, "cl"), core, "core.c", "c.obj", "c.d");
    assert_eq!(c.args, strs(&["/nologo", "-O2", "/c", "core.c", "/Fo:c.obj"]));
}

#[test]
fn link_commands_per_kind() {
    let g = graph();
    let core = &g.targets()[0];
    let app = &g.targets()[1];
    let ar = &g.targets()[2];
    let clang = compiler(CompilerKind::ClangCpp, "clang++");
    let objs = strs(&["a.o", "b.o"]);
    let c = link_command(&clang, app, &objs, &g, false);
    assert_eq!(c.program, "clang++");
    assert_eq!(c.args, strs(&["a.o", "b.o", "bin/core.dll", "-lm", "-o", "bin/app"]));
    let c = link_command(&clang, app, &objs, &g, true);
    assert_eq!(c.args, strs(&["a.o", "b.o", ".calmake/cache/lib\\core.lib", "-lm", "-o", "bin/app"]));
    let c = link_command(&clang, core, &objs, &g, false);
    assert_eq!(c.args, strs(&["a.o", "b.o", "-shared", "-o", "bin/core.dll"]));
    let c = link_command(&clang, ar, &objs, &g, false);
    assert_eq!(c.program, "llvm-ar");
    assert_eq!(c.args, strs(&["rcs", "bin/libar.a", "a.o", "b.o"]));
    let cl = compiler(CompilerKind::Cl, "cl");
    let c = link_command(&cl, app, &objs, &g, false);
    assert_eq!(c.program, "cl");
    assert_eq!(c.args, strs(&["/nologo", "a.o", "b.o", ".calmake/cache/lib/core.lib", "-lm", "/Fe:bin/app"]));
    let c = link_command(&cl, core, &objs, &g, false);
    assert_eq!(c.args, strs(&["/nologo", "a.o", "b.o", "/LD", "/Fe:bin/core.dll"]));
    let c = link_command(&cl, ar, &objs, &g, false);
    assert_eq!(c.program, "lib");
    assert_eq!(c.args, strs(&["/nologo", "/OUT:bin/libar.a", "a.o", "b.o"]));
}

#[test]
fn import_library_copies() {
    let g = graph();
    let core = &g.targets()[0];
    let app = &g.targets()[1];
    let clang = compiler(CompilerKind::ClangCpp, "clang++");
    assert_eq!(
        import_lib_copy(&clang, core, true),
        Some(("bin/core.lib".to_string(), ".calmake/cache/lib\\core.lib".to_string()))
    );
    assert_eq!(import_lib_copy(&clang, core, false), None);
    assert!(import_lib_copy(&compiler(CompilerKind::Cl, "cl"), core, false).is_some());
    assert_eq!(import_lib_copy(&clang, app, true), None);
}

#[test]
fn compilers_in_preference_order() {
    let unix = compiler_candidates(false);
    let names: Vec<&str> = unix.iter().map(|c| c.exe.as_str()).collect();
    assert_eq!(names, vec!["clang++", "clang", "g++"]);
    let win = compiler_candidates(true);
    assert_eq!(win.len(), 4);
    assert_eq!(win[3].kind, CompilerKind::Cl);
    let picked = detect_compiler(&unix, &vec![false, true, true]).unwrap();
    assert_eq!(picked.kind, CompilerKind::ClangC);
    assert_eq!(picked.exe, "clang");
    assert!(matches!(detect_compiler(&unix, &vec![false, false, false]), Err(ToolchainError::NoCompiler)));
}

#[test]
fn program_names_on_path() {
    assert_eq!(program_file_names("g++", true), strs(&["g++.exe", "g++"]));
    assert_eq!(program_file_names("g++", false), strs(&["g++"]));
}

#[test]
fn compilation_database_matches_compile_steps() {
    let g = graph();
    let clang = compiler(CompilerKind::ClangCpp, "clang++");
    let db = compile_database(&g, &clang, false);
    assert_eq!(db.len(), 3);
    assert_eq!(db[1].file, "main.cpp");
    assert_eq!(db[1].output, ".calmake/cache/obj/main.cpp.o");
    let step = compile_command(&clang, &g.targets()[1], "main.cpp", ".calmake/cache/obj/main.cpp.o", ".calmake/cache/deps/main.cpp.d");
    let mut expect = vec![step.program.clone()];
    expect.extend(step.args.iter().cloned());
    assert_eq!(db[1].arguments, expect);
    let dbw = compile_database(&g, &clang, true);
    assert_eq!(dbw[1].output, ".calmake/cache/obj\\main.cpp.o");
    assert!(dbw[1].arguments.contains(&".calmake/cache/deps\\main.cpp.d".to_string()));
}

#[test]
fn pretty_prints_program_then_args() {
    let cmd = CommandLine { program: "cc".to_string(), args: strs(&["-c", "a.c"]) };
    assert_eq!(pretty_cmd(&cmd), "cc -c a.c");
    let bare = CommandLine { program: "cc".to_string(), args: vec![] };
    assert_eq!(pretty_cmd(&bare), "cc");
}

#[test]
fn comparenums_compares() {
    assert!(comparenums(3, 3).unwrap());
    assert!(!comparenums(3, -3).unwrap());
}

#[test]
fn static_library_archives_without_reading_dependencies() {
    let cfg = parse_config("target lib {\nkind = staticlib\noutput = bin/liblib.a\nsources = l.c\ndeps = util\n}\ntarget util {\nkind = staticlib\noutput = bin/libutil.a\nsources = u.c\n}\n").unwrap();
    let found: Vec<Vec<SourceEntry>> = cfg.targets.iter().map(|_| vec![SourceEntry::File]).collect();
    let with_util = BuildGraph::from_config(&cfg, &found).unwrap();
    let lib = &with_util.targets()[0];
    let other = graph();
    let objs = strs(&["l.o"]);
    let c = link_command(&compiler(CompilerKind::Gpp, "g++"), lib, &objs, &other, false);
    assert_eq!(c.program, "llvm-ar");
    assert_eq!(c.args, strs(&["rcs", "bin/liblib.a", "l.o"]));
    let c = link_command(&compiler(CompilerKind::Cl, "cl"), lib, &objs, &other, true);
    assert_eq!(c.program, "lib");
    assert_eq!(c.args, strs(&["/nologo", "/OUT:bin/liblib.a", "l.o"]));
}
