//! Compilers: which ones are looked for, and the command lines that
//! compile a source and link or archive a target.

use vstd::prelude::*;
use crate::config::{Language, TargetKind};
use crate::graph::{BuildGraph, NodeSpec, TargetNode, has_target, node_index, lemma_node_index, graph_valid, nodes_view};
use crate::paths::{dll_to_lib, dll_to_lib_path, import_lib_path, spec_import_lib_path, spec_depfile_path, spec_obj_path};
use crate::text::{extend_strings, push_str, push_string, string_of};

verus! {

/// The compilers that calmake knows how to drive.
#[derive(Clone, Copy, Debug, PartialEq, Eq, Structural, Hash)]
pub enum CompilerKind {
    ClangCpp,
    ClangC,
    Gpp,
    Cl,
}

/// A compiler found on the machine: its kind and the program to run.
#[derive(Debug)]
pub struct Compiler {
    pub kind: CompilerKind,
    pub exe: String,
}

/// A program and its arguments.
#[derive(Debug)]
pub struct CommandLine {
    pub program: String,
    pub args: Vec<String>,
}

/// The mathematical content of a [`CommandLine`].
pub struct CommandSpec {
    pub program: Seq<char>,
    pub args: Seq<Seq<char>>,
}

impl View for CommandLine {
    type V = CommandSpec;

    open spec fn view(&self) -> CommandSpec {
        CommandSpec { program: self.program@, args: self.args.deep_view() }
    }
}

/// The compilers looked for, in order of preference; `cl` only on Windows.
pub open spec fn spec_candidates(windows: bool) -> Seq<(CompilerKind, Seq<char>)> {
    seq![
        (CompilerKind::ClangCpp, "clang++"@),
        (CompilerKind::ClangC, "clang"@),
        (CompilerKind::Gpp, "g++"@),
    ] + if windows {
        seq![(CompilerKind::Cl, "cl"@)]
    } else {
        seq![]
    }
}

pub open spec fn compilers_view(cs: Seq<Compiler>) -> Seq<(CompilerKind, Seq<char>)> {
    Seq::new(cs.len(), |i: int| (cs[i].kind, cs[i].exe@))
}

/// The compilers looked for, in order of preference.
pub fn compiler_candidates(windows: bool) -> (r: Vec<Compiler>)
    ensures
        compilers_view(r@) == spec_candidates(windows),
{
    let mut v: Vec<Compiler> = Vec::new();
    v.push(Compiler { kind: CompilerKind::ClangCpp, exe: string_of("clang++") });
    v.push(Compiler { kind: CompilerKind::ClangC, exe: string_of("clang") });
    v.push(Compiler { kind: CompilerKind::Gpp, exe: string_of("g++") });
    if windows {
        v.push(Compiler { kind: CompilerKind::Cl, exe: string_of("cl") });
    }
    assert(compilers_view(v@) =~= spec_candidates(windows));
    v
}

/// No compiler was found.
#[derive(Debug)]
pub enum ToolchainError {
    NoCompiler,
}

/// The message that reports that no compiler was found.
pub open spec fn toolchain_error_text() -> Seq<char> {
    "no supported compiler found (tried clang++, clang, g++, cl). Install LLVM/Clang, MSVC Build Tools, or MinGW and ensure the compiler is in your PATH. Verbose mode (-v) can be used to see which compilers were checked. Also, ensure that the compiler is callable from the command line (e.g., `clang++ --version` should work).\n         "@
}

impl ToolchainError {
    /// The message that reports this error.
    pub fn message(&self) -> (r: String)
        ensures
            r@ == toolchain_error_text(),
    {
        crate::text::string_of(
            "no supported compiler found (tried clang++, clang, g++, cl). Install LLVM/Clang, MSVC Build Tools, or MinGW and ensure the compiler is in your PATH. Verbose mode (-v) can be used to see which compilers were checked. Also, ensure that the compiler is callable from the command line (e.g., `clang++ --version` should work).\n         ",
        )
    }
}

/// The first index at or after `i` whose candidate was found, or the length.
pub open spec fn first_found(found: Seq<bool>, i: int) -> int
    decreases found.len() - i,
{
    if 0 <= i < found.len() && !found[i] {
        first_found(found, i + 1)
    } else {
        i
    }
}

/// The first candidate that was found on the machine. `found[i]` says
/// whether `candidates[i]` was found.
pub fn detect_compiler(candidates: &Vec<Compiler>, found: &Vec<bool>) -> (r: Result<Compiler, ToolchainError>)
    requires
        found.len() == candidates.len(),
    ensures
        match r {
            Ok(c) => first_found(found@, 0) < found.len() && (c.kind, c.exe@) == compilers_view(candidates@)[first_found(found@, 0)],
            Err(_) => first_found(found@, 0) == found.len(),
        },
{
    let mut i: usize = 0;
    while i < found.len() && !found[i]
        invariant
            i <= found.len(),
            first_found(found@, i as int) == first_found(found@, 0),
        decreases found.len() - i,
    {
        i = i + 1;
    }
    if i < found.len() {
        Ok(Compiler { kind: candidates[i].kind, exe: candidates[i].exe.clone() })
    } else {
        Err(ToolchainError::NoCompiler)
    }
}

/// The file names under which a program is looked for in each directory
/// of `PATH`: on Windows with `.exe` first, then as given.
pub open spec fn spec_program_file_names(exe: Seq<char>, windows: bool) -> Seq<Seq<char>> {
    if windows {
        seq![exe + ".exe"@, exe]
    } else {
        seq![exe]
    }
}

pub fn program_file_names(exe: &str, windows: bool) -> (r: Vec<String>)
    ensures
        r.deep_view() == spec_program_file_names(exe@, windows),
{
    let mut v: Vec<String> = Vec::new();
    if windows {
        let mut s = string_of(exe);
        push_str(&mut s, ".exe");
        push_string(&mut v, s);
    }
    push_string(&mut v, string_of(exe));
    assert(v.deep_view() =~= spec_program_file_names(exe@, windows));
    v
}

} // verus!

verus! {

/// The flags a target compiles with: `cflags` for C, `cppflags` for C++.
pub open spec fn language_flags(n: NodeSpec) -> Seq<Seq<char>> {
    match n.language {
        Language::C => n.cflags,
        Language::Cpp => n.cppflags,
    }
}

/// The command that compiles `src` of target `n` into `obj`, writing the
/// header dependencies to `depfile` (not with `cl`).
pub open spec fn spec_compile_command(
    kind: CompilerKind,
    exe: Seq<char>,
    n: NodeSpec,
    src: Seq<char>,
    obj: Seq<char>,
    depfile: Seq<char>,
) -> CommandSpec {
    match kind {
        CompilerKind::Cl => CommandSpec {
            program: "cl"@,
            args: seq!["/nologo"@] + match n.language {
                Language::C => n.cflags,
                Language::Cpp => seq!["/EHsc"@] + n.cppflags,
            } + seq!["/c"@, src, "/Fo:"@ + obj],
        },
        _ => CommandSpec {
            program: exe,
            args: (if kind == CompilerKind::ClangC && n.language == Language::Cpp {
                seq!["-x"@, "c++"@]
            } else {
                seq![]
            }) + language_flags(n) + seq!["-MMD"@, "-MF"@, depfile, "-c"@, src, "-o"@, obj],
        },
    }
}

/// The command that compiles one source of a target.
pub fn compile_command(compiler: &Compiler, node: &TargetNode, src: &str, obj: &str, depfile: &str) -> (r: CommandLine)
    ensures
        r@ == spec_compile_command(compiler.kind, compiler.exe@, node@, src@, obj@, depfile@),
{
    let mut args: Vec<String> = Vec::new();
    match compiler.kind {
        CompilerKind::Cl => {
            push_string(&mut args, string_of("/nologo"));
            match node.language {
                Language::C => {
                    extend_strings(&mut args, &node.cflags);
                },
                Language::Cpp => {
                    push_string(&mut args, string_of("/EHsc"));
                    extend_strings(&mut args, &node.cppflags);
                },
            }
            push_string(&mut args, string_of("/c"));
            push_string(&mut args, string_of(src));
            let mut fo = string_of("/Fo:");
            push_str(&mut fo, obj);
            push_string(&mut args, fo);
            let r = CommandLine { program: string_of("cl"), args };
            assert(r@.args =~= spec_compile_command(compiler.kind, compiler.exe@, node@, src@, obj@, depfile@).args);
            r
        },
        _ => {
            if compiler.kind == CompilerKind::ClangC && node.language == Language::Cpp {
                push_string(&mut args, string_of("-x"));
                push_string(&mut args, string_of("c++"));
            }
            match node.language {
                Language::C => {
                    extend_strings(&mut args, &node.cflags);
                },
                Language::Cpp => {
                    extend_strings(&mut args, &node.cppflags);
                },
            }
            push_string(&mut args, string_of("-MMD"));
            push_string(&mut args, string_of("-MF"));
            push_string(&mut args, string_of(depfile));
            push_string(&mut args, string_of("-c"));
            push_string(&mut args, string_of(src));
            push_string(&mut args, string_of("-o"));
            push_string(&mut args, string_of(obj));
            let r = CommandLine { program: compiler.exe.clone(), args };
            assert(r@.args =~= spec_compile_command(compiler.kind, compiler.exe@, node@, src@, obj@, depfile@).args);
            r
        },
    }
}

/// What stands on the link line for a dependency: the cached import
/// library of a shared library where import libraries are used, else the
/// dependency's output.
pub open spec fn dep_link_arg(g: Seq<NodeSpec>, dep: Seq<char>, import_libs: bool, windows: bool) -> Seq<char> {
    let d = g[node_index(g, dep, 0)];
    if d.kind == TargetKind::Sharedlib && import_libs {
        spec_import_lib_path(d.name, windows)
    } else {
        d.output
    }
}

/// The link arguments for each dependency, in order.
pub open spec fn dep_link_args(g: Seq<NodeSpec>, deps: Seq<Seq<char>>, import_libs: bool, windows: bool) -> Seq<Seq<char>>
    decreases deps.len(),
{
    if deps.len() == 0 {
        seq![]
    } else {
        dep_link_args(g, deps.drop_last(), import_libs, windows).push(dep_link_arg(g, deps.last(), import_libs, windows))
    }
}

/// The command that archives or links target `n` from `objects`. Import
/// libraries stand for shared dependencies with `cl`, and on Windows.
pub open spec fn spec_link_command(
    kind: CompilerKind,
    exe: Seq<char>,
    n: NodeSpec,
    objects: Seq<Seq<char>>,
    g: Seq<NodeSpec>,
    windows: bool,
) -> CommandSpec {
    if kind == CompilerKind::Cl {
        if n.kind == TargetKind::Staticlib {
            CommandSpec { program: "lib"@, args: seq!["/nologo"@, "/OUT:"@ + n.output] + objects }
        } else {
            CommandSpec {
                program: "cl"@,
                args: seq!["/nologo"@] + objects + dep_link_args(g, n.deps, true, windows) + n.ldflags + if n.kind
                    == TargetKind::Exe {
                    seq!["/Fe:"@ + n.output]
                } else {
                    seq!["/LD"@, "/Fe:"@ + n.output]
                },
            }
        }
    } else {
        if n.kind == TargetKind::Staticlib {
            CommandSpec { program: "llvm-ar"@, args: seq!["rcs"@, n.output] + objects }
        } else {
            CommandSpec {
                program: exe,
                args: objects + dep_link_args(g, n.deps, windows, windows) + n.ldflags + if n.kind == TargetKind::Exe {
                    seq!["-o"@, n.output]
                } else {
                    seq!["-shared"@, "-o"@, n.output]
                },
            }
        }
    }
}

fn push_dep_args(args: &mut Vec<String>, graph: &BuildGraph, node: &TargetNode, import_libs: bool, windows: bool)
    requires
        forall|k: int| 0 <= k < node.deps.len() ==> has_target(graph@, #[trigger] node.deps@[k]@),
    ensures
        final(args).deep_view() == old(args).deep_view() + dep_link_args(graph@, node@.deps, import_libs, windows),
{
    let targets = graph.targets();
    let ghost g = graph@;
    let mut k: usize = 0;
    assert(node@.deps.take(0) =~= seq![]);
    assert(args.deep_view() =~= old(args).deep_view() + dep_link_args(g, node@.deps.take(0), import_libs, windows));
    while k < node.deps.len()
        invariant
            k <= node.deps.len(),
            g == graph@,
            nodes_view(targets@) == g,
            graph_valid(g),
            forall|q: int| 0 <= q < node.deps.len() ==> has_target(g, #[trigger] node.deps@[q]@),
            args.deep_view() == old(args).deep_view() + dep_link_args(g, node@.deps.take(k as int), import_libs, windows),
        decreases node.deps.len() - k,
    {
        let dep = &node.deps[k];
        assert(node@.deps[k as int] == dep@);
        assert(node@.deps.take(k + 1).drop_last() =~= node@.deps.take(k as int));
        proof {
            lemma_node_index(g, dep@, 0);
            assert(has_target(g, node.deps@[k as int]@));
        }
        let mut j: usize = 0;
        while j < targets.len() && targets[j].name != *dep
            invariant
                j <= targets.len(),
                nodes_view(targets@) == g,
                node_index(g, dep@, j as int) == node_index(g, dep@, 0),
            decreases targets.len() - j,
        {
            assert(g[j as int] == targets@[j as int]@);
            j = j + 1;
        }
        proof {
            let w = choose|w: int| 0 <= w < g.len() && (#[trigger] g[w]).name == dep@;
            assert(node_index(g, dep@, 0) <= w);
        }
        let d = &targets[j];
        assert(g[j as int] == d@);
        let arg = if d.kind == TargetKind::Sharedlib && import_libs {
            import_lib_path(d.name.as_str(), windows)
        } else {
            d.output.clone()
        };
        assert(arg@ == dep_link_arg(g, node@.deps.take(k + 1).last(), import_libs, windows));
        push_string(args, arg);
        assert(args.deep_view() =~= old(args).deep_view() + dep_link_args(g, node@.deps.take(k + 1), import_libs, windows));
        k = k + 1;
    }
    assert(node@.deps.take(k as int) =~= node@.deps);
}

} // verus!

verus! {

/// The command that archives a static library, or links an executable
/// or a shared library, from its objects and its dependencies' outputs.
pub fn link_command(compiler: &Compiler, node: &TargetNode, objects: &Vec<String>, graph: &BuildGraph, windows: bool) -> (r:
    CommandLine)
    requires
        node.kind != TargetKind::Staticlib ==> forall|k: int|
            0 <= k < node.deps.len() ==> has_target(graph@, #[trigger] node.deps@[k]@),
    ensures
        r@ == spec_link_command(compiler.kind, compiler.exe@, node@, objects.deep_view(), graph@, windows),
{
    let mut args: Vec<String> = Vec::new();
    if compiler.kind == CompilerKind::Cl {
        if node.kind == TargetKind::Staticlib {
            push_string(&mut args, string_of("/nologo"));
            let mut out = string_of("/OUT:");
            push_str(&mut out, node.output.as_str());
            push_string(&mut args, out);
            extend_strings(&mut args, objects);
            let r = CommandLine { program: string_of("lib"), args };
            assert(r@.args =~= spec_link_command(compiler.kind, compiler.exe@, node@, objects.deep_view(), graph@, windows).args);
            r
        } else {
            push_string(&mut args, string_of("/nologo"));
            extend_strings(&mut args, objects);
            push_dep_args(&mut args, graph, node, true, windows);
            extend_strings(&mut args, &node.ldflags);
            let mut fe = string_of("/Fe:");
            push_str(&mut fe, node.output.as_str());
            if node.kind == TargetKind::Exe {
                push_string(&mut args, fe);
            } else {
                push_string(&mut args, string_of("/LD"));
                push_string(&mut args, fe);
            }
            let r = CommandLine { program: string_of("cl"), args };
            assert(r@.args =~= spec_link_command(compiler.kind, compiler.exe@, node@, objects.deep_view(), graph@, windows).args);
            r
        }
    } else {
        if node.kind == TargetKind::Staticlib {
            push_string(&mut args, string_of("rcs"));
            push_string(&mut args, node.output.clone());
            extend_strings(&mut args, objects);
            let r = CommandLine { program: string_of("llvm-ar"), args };
            assert(r@.args =~= spec_link_command(compiler.kind, compiler.exe@, node@, objects.deep_view(), graph@, windows).args);
            r
        } else {
            extend_strings(&mut args, objects);
            push_dep_args(&mut args, graph, node, windows, windows);
            extend_strings(&mut args, &node.ldflags);
            if node.kind == TargetKind::Exe {
                push_string(&mut args, string_of("-o"));
            } else {
                push_string(&mut args, string_of("-shared"));
                push_string(&mut args, string_of("-o"));
            }
            push_string(&mut args, node.output.clone());
            let r = CommandLine { program: compiler.exe.clone(), args };
            assert(r@.args =~= spec_link_command(compiler.kind, compiler.exe@, node@, objects.deep_view(), graph@, windows).args);
            r
        }
    }
}

/// After linking a shared library with `cl`, or on Windows: the import
/// library the linker left beside the DLL, and where it is cached.
pub open spec fn spec_import_lib_copy(kind: CompilerKind, n: NodeSpec, windows: bool) -> Option<(Seq<char>, Seq<char>)> {
    if n.kind == TargetKind::Sharedlib && (kind == CompilerKind::Cl || windows) {
        Some((dll_to_lib(n.output), spec_import_lib_path(n.name, windows)))
    } else {
        None
    }
}

/// Which import library to copy into the cache after a link, if any.
pub fn import_lib_copy(compiler: &Compiler, node: &TargetNode, windows: bool) -> (r: Option<(String, String)>)
    ensures
        match r {
            Some((from, to)) => spec_import_lib_copy(compiler.kind, node@, windows) == Some((from@, to@)),
            None => spec_import_lib_copy(compiler.kind, node@, windows) is None,
        },
{
    if node.kind == TargetKind::Sharedlib && (compiler.kind == CompilerKind::Cl || windows) {
        Some((dll_to_lib_path(node.output.as_str()), import_lib_path(node.name.as_str(), windows)))
    } else {
        None
    }
}

} // verus!

verus! {

// ---------- the compilation database ----------

/// One entry of `compile_commands.json`: a source, the full command that
/// compiles it (program first), and the object it writes.
#[derive(Debug)]
pub struct CompdbEntry {
    pub file: String,
    pub arguments: Vec<String>,
    pub output: String,
}

pub struct CompdbSpec {
    pub file: Seq<char>,
    pub arguments: Seq<Seq<char>>,
    pub output: Seq<char>,
}

impl View for CompdbEntry {
    type V = CompdbSpec;

    open spec fn view(&self) -> CompdbSpec {
        CompdbSpec { file: self.file@, arguments: self.arguments.deep_view(), output: self.output@ }
    }
}

pub open spec fn compdb_view(es: Seq<CompdbEntry>) -> Seq<CompdbSpec> {
    Seq::new(es.len(), |i: int| es[i]@)
}

/// The entry for source `src` of target `n`: the same command as its
/// compile step, with the program as the first argument.
pub open spec fn compdb_entry(kind: CompilerKind, exe: Seq<char>, n: NodeSpec, src: Seq<char>, windows: bool) -> CompdbSpec {
    let cmd = spec_compile_command(kind, exe, n, src, spec_obj_path(src, windows), spec_depfile_path(src, windows));
    CompdbSpec { file: src, arguments: seq![cmd.program] + cmd.args, output: spec_obj_path(src, windows) }
}

/// The entries for the sources of one target, in order.
pub open spec fn compdb_target(kind: CompilerKind, exe: Seq<char>, n: NodeSpec, srcs: Seq<Seq<char>>, windows: bool) -> Seq<CompdbSpec>
    decreases srcs.len(),
{
    if srcs.len() == 0 {
        seq![]
    } else {
        compdb_target(kind, exe, n, srcs.drop_last(), windows).push(compdb_entry(kind, exe, n, srcs.last(), windows))
    }
}

/// The entries for every source of every target, in graph order.
pub open spec fn compdb_of(kind: CompilerKind, exe: Seq<char>, g: Seq<NodeSpec>, windows: bool) -> Seq<CompdbSpec>
    decreases g.len(),
{
    if g.len() == 0 {
        seq![]
    } else {
        compdb_of(kind, exe, g.drop_last(), windows) + compdb_target(kind, exe, g.last(), g.last().sources, windows)
    }
}

/// The compilation database of a graph: for each source, the command
/// calmake compiles it with.
pub fn compile_database(graph: &BuildGraph, compiler: &Compiler, windows: bool) -> (r: Vec<CompdbEntry>)
    ensures
        compdb_view(r@) == compdb_of(compiler.kind, compiler.exe@, graph@, windows),
{
    let targets = graph.targets();
    let ghost g = graph@;
    let ghost kind = compiler.kind;
    let ghost exe = compiler.exe@;
    let mut out: Vec<CompdbEntry> = Vec::new();
    let mut i: usize = 0;
    assert(g.take(0) =~= seq![]);
    assert(compdb_view(out@) =~= compdb_of(kind, exe, g.take(0), windows));
    while i < targets.len()
        invariant
            i <= targets.len(),
            nodes_view(targets@) == g,
            kind == compiler.kind,
            exe == compiler.exe@,
            compdb_view(out@) == compdb_of(kind, exe, g.take(i as int), windows),
        decreases targets.len() - i,
    {
        let node = &targets[i];
        assert(g[i as int] == node@);
        assert(g.take(i + 1).drop_last() =~= g.take(i as int));
        let ghost base = compdb_view(out@);
        let ghost srcs = node@.sources;
        let mut k: usize = 0;
        assert(srcs.take(0) =~= seq![]);
        assert(compdb_view(out@) =~= base + compdb_target(kind, exe, node@, srcs.take(0), windows));
        while k < node.sources.len()
            invariant
                k <= node.sources.len(),
                srcs == node@.sources,
                kind == compiler.kind,
                exe == compiler.exe@,
                compdb_view(out@) == base + compdb_target(kind, exe, node@, srcs.take(k as int), windows),
            decreases node.sources.len() - k,
        {
            let src = node.sources[k].as_str();
            assert(srcs[k as int] == src@);
            let obj = crate::paths::obj_path_for(src, windows);
            let dep = crate::paths::depfile_path_for(src, windows);
            let cmd = compile_command(compiler, node, src, obj.as_str(), dep.as_str());
            let mut arguments: Vec<String> = Vec::new();
            push_string(&mut arguments, cmd.program);
            extend_strings(&mut arguments, &cmd.args);
            let e = CompdbEntry { file: string_of(src), arguments, output: obj };
            assert(e@ == compdb_entry(kind, exe, node@, srcs[k as int], windows)) by {
                assert(e@.arguments =~= compdb_entry(kind, exe, node@, srcs[k as int], windows).arguments);
            }
            let ghost before = out@;
            out.push(e);
            assert(srcs.take(k + 1).drop_last() =~= srcs.take(k as int));
            assert(compdb_view(out@) =~= base + compdb_target(kind, exe, node@, srcs.take(k + 1), windows)) by {
                assert(compdb_view(out@) =~= compdb_view(before).push(e@));
            }
            k = k + 1;
        }
        assert(srcs.take(k as int) =~= srcs);
        assert(compdb_view(out@) =~= compdb_of(kind, exe, g.take(i + 1), windows));
        i = i + 1;
    }
    assert(g.take(i as int) =~= g);
    out
}

} // verus!

verus! {

// ---------- the database mirrors the compile steps ----------

/// How many sources the first `i` targets have together: where the
/// entries of target `i` start in the compilation database.
pub open spec fn source_offset(g: Seq<NodeSpec>, i: int) -> int
    decreases i,
{
    if i <= 0 {
        0
    } else {
        source_offset(g, i - 1) + g[i - 1].sources.len()
    }
}

proof fn lemma_source_offset_prefix(g: Seq<NodeSpec>, h: Seq<NodeSpec>, i: int)
    requires
        0 <= i <= h.len() <= g.len(),
        forall|j: int| 0 <= j < h.len() ==> #[trigger] h[j] == g[j],
    ensures
        source_offset(h, i) == source_offset(g, i),
    decreases i,
{
    if i > 0 {
        lemma_source_offset_prefix(g, h, i - 1);
    }
}

proof fn lemma_source_offset_mono(g: Seq<NodeSpec>, i: int, j: int)
    requires
        0 <= i <= j <= g.len(),
    ensures
        source_offset(g, i) <= source_offset(g, j),
    decreases j,
{
    if i < j {
        lemma_source_offset_mono(g, i, j - 1);
    }
}

proof fn lemma_compdb_target_layout(kind: CompilerKind, exe: Seq<char>, n: NodeSpec, srcs: Seq<Seq<char>>, windows: bool)
    ensures
        compdb_target(kind, exe, n, srcs, windows).len() == srcs.len(),
        forall|k: int| 0 <= k < srcs.len() ==> #[trigger] compdb_target(kind, exe, n, srcs, windows)[k] == compdb_entry(kind, exe, n, srcs[k], windows),
    decreases srcs.len(),
{
    if srcs.len() > 0 {
        lemma_compdb_target_layout(kind, exe, n, srcs.drop_last(), windows);
    }
}

/// The compilation database holds one entry for each source of each
/// target, target after target, and the entry for source `k` of target
/// `i` is that source's compile step: the program calmake runs followed by
/// the arguments it passes, the same flags included.
pub proof fn lemma_compdb_is_compile_steps(kind: CompilerKind, exe: Seq<char>, g: Seq<NodeSpec>, windows: bool)
    ensures
        compdb_of(kind, exe, g, windows).len() == source_offset(g, g.len() as int),
        forall|i: int, k: int|
            #![trigger g[i].sources[k], source_offset(g, i)]
            0 <= i < g.len() && 0 <= k < g[i].sources.len() ==> {
                let src = g[i].sources[k];
                let cmd = spec_compile_command(kind, exe, g[i], src, spec_obj_path(src, windows), spec_depfile_path(src, windows));
                let e = compdb_of(kind, exe, g, windows)[source_offset(g, i) + k];
                &&& e.file == src
                &&& e.output == spec_obj_path(src, windows)
                &&& e.arguments == seq![cmd.program] + cmd.args
            },
    decreases g.len(),
{
    if g.len() > 0 {
        let h = g.drop_last();
        let last = g.len() - 1;
        lemma_compdb_is_compile_steps(kind, exe, h, windows);
        lemma_compdb_target_layout(kind, exe, g[last], g[last].sources, windows);
        lemma_source_offset_prefix(g, h, h.len() as int);
        let front = compdb_of(kind, exe, h, windows);
        let back = compdb_target(kind, exe, g[last], g[last].sources, windows);
        assert(compdb_of(kind, exe, g, windows) == front + back);
        assert forall|i: int, k: int|
            #![trigger g[i].sources[k], source_offset(g, i)]
            0 <= i < g.len() && 0 <= k < g[i].sources.len() implies {
                let src = g[i].sources[k];
                let cmd = spec_compile_command(kind, exe, g[i], src, spec_obj_path(src, windows), spec_depfile_path(src, windows));
                let e = compdb_of(kind, exe, g, windows)[source_offset(g, i) + k];
                &&& e.file == src
                &&& e.output == spec_obj_path(src, windows)
                &&& e.arguments == seq![cmd.program] + cmd.args
            } by {
            if i < last {
                lemma_source_offset_prefix(g, h, i);
                lemma_source_offset_prefix(g, h, i + 1);
                lemma_source_offset_mono(h, i + 1, h.len() as int);
                lemma_source_offset_mono(h, 0, i);
                assert(h[i] == g[i]);
                assert(h[i].sources[k] == g[i].sources[k]);
                let j = source_offset(h, i) + k;
                assert(j < front.len());
                assert(compdb_of(kind, exe, g, windows)[j] == front[j]);
            } else {
                assert(source_offset(g, i) == front.len());
                let j = front.len() + k;
                assert(compdb_of(kind, exe, g, windows)[j] == back[k]);
                assert(back[k] == compdb_entry(kind, exe, g[last], g[last].sources[k], windows));
            }
        }
    }
}

} // verus!

verus! {

// ---------- what a compile step passes ----------

/// The flags a compile step passes, by the target's language: `cppflags`
/// for a C++ target, `cflags` for a C target, whatever the compiler.
/// With clang, g++ or `clang` the step is: `-x c++` (only when `clang`
/// compiles a C++ target), those flags in order, then `-MMD -MF depfile
/// -c src -o obj`, run by the detected executable; with `cl` it is
/// `/nologo`, `/EHsc` for C++, those flags in order, then `/c src
/// /Fo:obj`. So clang++ and g++ pass the same arguments.
pub proof fn lemma_compile_step_flags(
    kind: CompilerKind,
    exe: Seq<char>,
    n: NodeSpec,
    src: Seq<char>,
    obj: Seq<char>,
    depfile: Seq<char>,
)
    ensures
        ({
            let c = spec_compile_command(kind, exe, n, src, obj, depfile);
            let flags = if n.language == Language::Cpp {
                n.cppflags
            } else {
                n.cflags
            };
            let x: int = if kind == CompilerKind::ClangC && n.language == Language::Cpp {
                2
            } else {
                0
            };
            let f = flags.len() as int;
            &&& kind != CompilerKind::Cl ==> {
                &&& c.program == exe
                &&& c.args.len() == x + f + 7
                &&& (x == 2 ==> c.args[0] == "-x"@ && c.args[1] == "c++"@)
                &&& c.args.subrange(x, x + f) == flags
                &&& c.args[x + f] == "-MMD"@
                &&& c.args[x + f + 1] == "-MF"@
                &&& c.args[x + f + 2] == depfile
                &&& c.args[x + f + 3] == "-c"@
                &&& c.args[x + f + 4] == src
                &&& c.args[x + f + 5] == "-o"@
                &&& c.args[x + f + 6] == obj
            }
            &&& kind == CompilerKind::Cl ==> {
                let y: int = if n.language == Language::Cpp {
                    2
                } else {
                    1
                };
                &&& c.program == "cl"@
                &&& c.args.len() == y + f + 3
                &&& c.args[0] == "/nologo"@
                &&& (y == 2 ==> c.args[1] == "/EHsc"@)
                &&& c.args.subrange(y, y + f) == flags
                &&& c.args[y + f] == "/c"@
                &&& c.args[y + f + 1] == src
                &&& c.args[y + f + 2] == "/Fo:"@ + obj
            }
        }),
{
    let c = spec_compile_command(kind, exe, n, src, obj, depfile);
    let flags = if n.language == Language::Cpp {
        n.cppflags
    } else {
        n.cflags
    };
    if kind != CompilerKind::Cl {
        let x: int = if kind == CompilerKind::ClangC && n.language == Language::Cpp {
            2
        } else {
            0
        };
        let pre: Seq<Seq<char>> = if kind == CompilerKind::ClangC && n.language == Language::Cpp {
            seq!["-x"@, "c++"@]
        } else {
            seq![]
        };
        let tail = seq!["-MMD"@, "-MF"@, depfile, "-c"@, src, "-o"@, obj];
        assert(language_flags(n) == flags);
        assert(c.args == pre + flags + tail);
        assert(c.args.subrange(x, x + flags.len()) =~= flags);
    } else {
        let pre: Seq<Seq<char>> = if n.language == Language::Cpp {
            seq!["/nologo"@, "/EHsc"@]
        } else {
            seq!["/nologo"@]
        };
        let y = pre.len() as int;
        let tail = seq!["/c"@, src, "/Fo:"@ + obj];
        assert(c.args =~= pre + flags + tail);
        assert(c.args.subrange(y, y + flags.len()) =~= flags);
    }
}

/// Which compiler of clang++ and g++ is used changes only the program
/// that runs, never the arguments.
pub proof fn lemma_compile_args_same_for_gcc_and_clang(
    exe1: Seq<char>,
    exe2: Seq<char>,
    n: NodeSpec,
    src: Seq<char>,
    obj: Seq<char>,
    depfile: Seq<char>,
)
    ensures
        spec_compile_command(CompilerKind::ClangCpp, exe1, n, src, obj, depfile).args == spec_compile_command(
            CompilerKind::Gpp,
            exe2,
            n,
            src,
            obj,
            depfile,
        ).args,
        n.language == Language::C ==> spec_compile_command(CompilerKind::ClangC, exe1, n, src, obj, depfile).args
            == spec_compile_command(CompilerKind::Gpp, exe2, n, src, obj, depfile).args,
{
    lemma_compile_step_flags(CompilerKind::ClangCpp, exe1, n, src, obj, depfile);
    lemma_compile_step_flags(CompilerKind::Gpp, exe2, n, src, obj, depfile);
    lemma_compile_step_flags(CompilerKind::ClangC, exe1, n, src, obj, depfile);
    let a = spec_compile_command(CompilerKind::ClangCpp, exe1, n, src, obj, depfile).args;
    let b = spec_compile_command(CompilerKind::Gpp, exe2, n, src, obj, depfile).args;
    let flags = if n.language == Language::Cpp {
        n.cppflags
    } else {
        n.cflags
    };
    let f = flags.len() as int;
    assert forall|i: int| 0 <= i < a.len() implies a[i] == b[i] by {
        if i < f {
            assert(a[i] == a.subrange(0, f)[i]);
            assert(b[i] == b.subrange(0, f)[i]);
        }
    }
    assert(a =~= b);
    if n.language == Language::C {
        let c = spec_compile_command(CompilerKind::ClangC, exe1, n, src, obj, depfile).args;
        assert forall|i: int| 0 <= i < c.len() implies c[i] == b[i] by {
            if i < f {
                assert(c[i] == c.subrange(0, f)[i]);
                assert(b[i] == b.subrange(0, f)[i]);
            }
        }
        assert(c =~= b);
    }
}

} // verus!

verus! {

// ---------- what a link step passes ----------

proof fn lemma_dep_link_args_layout(g: Seq<NodeSpec>, deps: Seq<Seq<char>>, import_libs: bool, windows: bool)
    ensures
        dep_link_args(g, deps, import_libs, windows).len() == deps.len(),
        forall|k: int|
            0 <= k < deps.len() ==> #[trigger] dep_link_args(g, deps, import_libs, windows)[k] == dep_link_arg(
                g,
                deps[k],
                import_libs,
                windows,
            ),
    decreases deps.len(),
{
    if deps.len() > 0 {
        lemma_dep_link_args_layout(g, deps.drop_last(), import_libs, windows);
    }
}

/// What a link step passes for a dependency named `x` where the target
/// `g[i]` has that name: its cached import library when it is a shared
/// library and import libraries are in use, else its output.
proof fn lemma_dep_link_arg_names_target(g: Seq<NodeSpec>, x: Seq<char>, import_libs: bool, windows: bool, i: int)
    requires
        graph_valid(g),
        0 <= i < g.len(),
        g[i].name == x,
    ensures
        dep_link_arg(g, x, import_libs, windows) == if g[i].kind == TargetKind::Sharedlib && import_libs {
            spec_import_lib_path(g[i].name, windows)
        } else {
            g[i].output
        },
{
    lemma_node_index(g, x, 0);
    let j = node_index(g, x, 0);
    assert(j <= i);
    if j != i {
        assert(g[j].name == x);
    }
}

/// A link step, in terms of its inputs. An executable or shared library
/// is linked from its objects, then one argument for each listed
/// dependency in order (the dependency's cached import library where it
/// is a shared library and import libraries are used, that is with `cl`
/// or on Windows; else the dependency's output), then its `ldflags`, then
/// the output options. A static library is archived from its objects
/// alone, by `llvm-ar` (or `lib` with `cl`).
pub proof fn lemma_link_step(
    kind: CompilerKind,
    exe: Seq<char>,
    n: NodeSpec,
    objects: Seq<Seq<char>>,
    g: Seq<NodeSpec>,
    windows: bool,
)
    requires
        graph_valid(g),
    ensures
        ({
            let c = spec_link_command(kind, exe, n, objects, g, windows);
            let il = kind == CompilerKind::Cl || windows;
            let o: int = if kind == CompilerKind::Cl {
                1
            } else {
                0
            };
            let d = objects.len() + n.deps.len();
            &&& n.kind == TargetKind::Staticlib && kind != CompilerKind::Cl ==> c.program == "llvm-ar"@ && c.args
                == seq!["rcs"@, n.output] + objects
            &&& n.kind == TargetKind::Staticlib && kind == CompilerKind::Cl ==> c.program == "lib"@ && c.args
                == seq!["/nologo"@, "/OUT:"@ + n.output] + objects
            &&& n.kind != TargetKind::Staticlib ==> {
                &&& c.program == if kind == CompilerKind::Cl {
                    "cl"@
                } else {
                    exe
                }
                &&& (kind == CompilerKind::Cl ==> c.args[0] == "/nologo"@)
                &&& c.args.subrange(o, o + objects.len()) == objects
                &&& forall|k: int, i: int|
                    #![trigger c.args[o + objects.len() + k], g[i]]
                    0 <= k < n.deps.len() && 0 <= i < g.len() && g[i].name == n.deps[k] ==> c.args[o
                        + objects.len() + k] == (if g[i].kind == TargetKind::Sharedlib && il {
                        spec_import_lib_path(g[i].name, windows)
                    } else {
                        g[i].output
                    })
                &&& c.args.subrange(o + d, o + d + n.ldflags.len()) == n.ldflags
                &&& c.args.subrange(o + d + n.ldflags.len(), c.args.len() as int) == if kind == CompilerKind::Cl {
                    if n.kind == TargetKind::Exe {
                        seq!["/Fe:"@ + n.output]
                    } else {
                        seq!["/LD"@, "/Fe:"@ + n.output]
                    }
                } else {
                    if n.kind == TargetKind::Exe {
                        seq!["-o"@, n.output]
                    } else {
                        seq!["-shared"@, "-o"@, n.output]
                    }
                }
            }
        }),
{
    let c = spec_link_command(kind, exe, n, objects, g, windows);
    let il = kind == CompilerKind::Cl || windows;
    if n.kind != TargetKind::Staticlib {
        let imp = if kind == CompilerKind::Cl { true } else { windows };
        assert(imp == il);
        lemma_dep_link_args_layout(g, n.deps, imp, windows);
        let ds = dep_link_args(g, n.deps, imp, windows);
        let pre: Seq<Seq<char>> = if kind == CompilerKind::Cl {
            seq!["/nologo"@]
        } else {
            seq![]
        };
        let outs = if kind == CompilerKind::Cl {
            if n.kind == TargetKind::Exe {
                seq!["/Fe:"@ + n.output]
            } else {
                seq!["/LD"@, "/Fe:"@ + n.output]
            }
        } else {
            if n.kind == TargetKind::Exe {
                seq!["-o"@, n.output]
            } else {
                seq!["-shared"@, "-o"@, n.output]
            }
        };
        assert(c.args =~= pre + objects + ds + n.ldflags + outs);
        let o = pre.len() as int;
        let d = objects.len() + n.deps.len();
        assert(c.args.subrange(o, o + objects.len()) =~= objects);
        assert(c.args.subrange(o + d, o + d + n.ldflags.len()) =~= n.ldflags);
        assert(c.args.subrange(o + d + n.ldflags.len(), c.args.len() as int) =~= outs);
        assert forall|k: int, i: int|
            #![trigger c.args[o + objects.len() + k], g[i]]
            0 <= k < n.deps.len() && 0 <= i < g.len() && g[i].name == n.deps[k] implies c.args[o
                + objects.len() + k] == (if g[i].kind == TargetKind::Sharedlib && il {
                spec_import_lib_path(g[i].name, windows)
            } else {
                g[i].output
            }) by {
            assert(c.args[o + objects.len() + k] == ds[k]);
            lemma_dep_link_arg_names_target(g, n.deps[k], imp, windows, i);
        }
    }
}

} // verus!
