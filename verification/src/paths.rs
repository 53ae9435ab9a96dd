//! Paths: where objects, dependency files and import libraries are cached,
//! file names and extensions, and which files in `bin/` are stale.

use vstd::prelude::*;
use crate::config::TargetKind;
use crate::graph::{BuildGraph, NodeSpec, TargetNode, nodes_view};
use crate::text::{
    chars_eq, chars_of, ends_with, has_suffix, piece_ranges, pieces, pieces_from, push_char, push_str,
    find_from, lemma_find_from_bounds,
    push_string, ranges_in, slices_of, string_from,
};

verus! {

/// A path turned into a single file name: each `/` and `\` becomes `_`.
pub open spec fn flatten_name(s: Seq<char>) -> Seq<char> {
    Seq::new(s.len(), |i: int| if s[i] == '/' || s[i] == '\\' { '_' } else { s[i] })
}

/// The cache file name for a source: its flattened path, or `unknown`
/// where the path is empty.
pub open spec fn cache_stem(src: Seq<char>) -> Seq<char> {
    if src.len() == 0 {
        "unknown"@
    } else {
        flatten_name(src)
    }
}

/// `name` put under `dir`, as `PathBuf::join` does: a name that starts
/// with a separator or (on Windows) a drive replaces `dir`; otherwise the
/// two are joined.
pub open spec fn spec_push(dir: Seq<char>, name: Seq<char>, windows: bool) -> Seq<char> {
    if (name.len() > 0 && is_sep(name[0], windows)) || drive_len(name, windows) == 2 {
        name
    } else {
        spec_join(dir, name, windows)
    }
}

/// Where the object file of a source is kept.
pub open spec fn spec_obj_path(src: Seq<char>, windows: bool) -> Seq<char> {
    spec_push(".calmake/cache/obj"@, cache_stem(src) + ".o"@, windows)
}

/// Where the dependency file of a source is kept.
pub open spec fn spec_depfile_path(src: Seq<char>, windows: bool) -> Seq<char> {
    spec_push(".calmake/cache/deps"@, cache_stem(src) + ".d"@, windows)
}

/// The file name of a target's cached import library: the target's name,
/// with `.lib` added unless it already ends so.
pub open spec fn lib_base(name: Seq<char>) -> Seq<char> {
    if has_suffix(name, ".lib"@) {
        name
    } else {
        name + ".lib"@
    }
}

/// Where the import library of a shared library target is kept.
pub open spec fn spec_import_lib_path(name: Seq<char>, windows: bool) -> Seq<char> {
    spec_push(".calmake/cache/lib"@, lib_base(name), windows)
}

/// `root` joined with a relative `name`.
fn join_exec(root: &str, name: &str, windows: bool) -> (r: String)
    ensures
        r@ == spec_join(root@, name@, windows),
{
    let rc = chars_of(root);
    let mut out = String::new();
    push_str(&mut out, root);
    let bare_drive = windows && rc.len() == 2 && is_letter_exec(rc[0]) && rc[1] == ':';
    if !(rc.len() == 0 || rc[rc.len() - 1] == '/' || (windows && rc[rc.len() - 1] == '\\') || bare_drive) {
        push_char(&mut out, if windows {
            '\\'
        } else {
            '/'
        });
    }
    push_str(&mut out, name);
    assert(out@ =~= spec_join(root@, name@, windows));
    out
}

/// `name` put under `dir`, as `PathBuf::join` does.
fn push_path(dir: &str, name: &str, windows: bool) -> (r: String)
    ensures
        r@ == spec_push(dir@, name@, windows),
{
    let nc = chars_of(name);
    if (nc.len() > 0 && (nc[0] == '/' || (windows && nc[0] == '\\'))) || (windows && nc.len() >= 2 && is_letter_exec(nc[0])
        && nc[1] == ':') {
        return string_from(nc.as_slice());
    }
    join_exec(dir, name, windows)
}

fn push_flattened(out: &mut String, src: &[char])
    ensures
        final(out)@ == old(out)@ + flatten_name(src@),
{
    let mut i: usize = 0;
    while i < src.len()
        invariant
            i <= src.len(),
            out@ == old(out)@ + flatten_name(src@).take(i as int),
        decreases src.len() - i,
    {
        let c = src[i];
        if c == '/' || c == '\\' {
            push_char(out, '_');
        } else {
            push_char(out, c);
        }
        i = i + 1;
        assert(out@ =~= old(out)@ + flatten_name(src@).take(i as int));
    }
    assert(flatten_name(src@).take(i as int) =~= flatten_name(src@));
}

fn cache_path(dir: &str, src: &str, suffix: &str, windows: bool) -> (r: String)
    ensures
        r@ == spec_push(dir@, cache_stem(src@) + suffix@, windows),
{
    let cs = chars_of(src);
    let mut name = String::new();
    if cs.len() == 0 {
        push_str(&mut name, "unknown");
    } else {
        push_flattened(&mut name, cs.as_slice());
    }
    push_str(&mut name, suffix);
    assert(name@ =~= cache_stem(src@) + suffix@);
    push_path(dir, name.as_str(), windows)
}

/// Where the object file of a source is kept.
pub fn obj_path_for(src: &str, windows: bool) -> (r: String)
    ensures
        r@ == spec_obj_path(src@, windows),
{
    cache_path(".calmake/cache/obj", src, ".o", windows)
}

/// Where the dependency file of a source is kept.
pub fn depfile_path_for(src: &str, windows: bool) -> (r: String)
    ensures
        r@ == spec_depfile_path(src@, windows),
{
    cache_path(".calmake/cache/deps", src, ".d", windows)
}

/// Where the import library of a shared library target named `name` is kept.
pub(crate) fn import_lib_path(name: &str, windows: bool) -> (r: String)
    ensures
        r@ == spec_import_lib_path(name@, windows),
{
    let cs = chars_of(name);
    let lib = chars_of(".lib");
    let mut base = String::new();
    push_str(&mut base, name);
    if !ends_with(cs.as_slice(), lib.as_slice()) {
        push_str(&mut base, ".lib");
    }
    assert(base@ =~= lib_base(name@));
    push_path(".calmake/cache/lib", base.as_str(), windows)
}

/// Where the import library of a shared library target is kept.
pub fn cached_import_lib_for(node: &TargetNode, windows: bool) -> (r: String)
    ensures
        r@ == spec_import_lib_path(node.name@, windows),
{
    import_lib_path(node.name.as_str(), windows)
}

// ---------- replacing `.dll` by `.lib` ----------

/// `s` from index `i` on, with every `.dll` (taken left to right) made `.lib`.
pub open spec fn dll_to_lib_from(s: Seq<char>, i: int) -> Seq<char>
    decreases s.len() - i,
{
    if i < 0 || i >= s.len() {
        seq![]
    } else if i + 4 <= s.len() && s.subrange(i, i + 4) == ".dll"@ {
        ".lib"@ + dll_to_lib_from(s, i + 4)
    } else {
        seq![s[i]] + dll_to_lib_from(s, i + 1)
    }
}

/// `s` with every `.dll` made `.lib`, as `str::replace` does.
pub open spec fn dll_to_lib(s: Seq<char>) -> Seq<char> {
    dll_to_lib_from(s, 0)
}

/// The import library a linker leaves beside a DLL: the DLL's path with
/// each `.dll` made `.lib`.
pub fn dll_to_lib_path(s: &str) -> (r: String)
    ensures
        r@ == dll_to_lib(s@),
{
    let cs = chars_of(s);
    let dll = chars_of(".dll");
    let mut out = String::new();
    let mut i: usize = 0;
    assert(out@ + dll_to_lib_from(s@, 0) =~= dll_to_lib(s@));
    while i < cs.len()
        invariant
            i <= cs.len(),
            cs@ == s@,
            dll@ == ".dll"@,
            out@ + dll_to_lib_from(s@, i as int) == dll_to_lib(s@),
        decreases cs.len() - i,
    {
        let ghost before = out@;
        if cs.len() - i >= 4 && chars_eq(&cs[i..i + 4], dll.as_slice()) {
            push_str(&mut out, ".lib");
            assert(out@ + dll_to_lib_from(s@, i + 4) =~= before + dll_to_lib_from(s@, i as int));
            i = i + 4;
        } else {
            push_char(&mut out, cs[i]);
            assert(out@ + dll_to_lib_from(s@, i + 1) =~= before + dll_to_lib_from(s@, i as int));
            i = i + 1;
        }
    }
    assert(dll_to_lib_from(s@, i as int) =~= seq![]);
    assert(out@ =~= dll_to_lib(s@));
    out
}

} // verus!

verus! {

// ---------- file names and extensions ----------

/// The last component of a list of `/`-separated pieces that is neither
/// empty nor `.`.
pub open spec fn last_component(ps: Seq<Seq<char>>) -> Option<Seq<char>>
    decreases ps.len(),
{
    if ps.len() == 0 {
        None
    } else if ps.last().len() == 0 || ps.last() == "."@ {
        last_component(ps.drop_last())
    } else {
        Some(ps.last())
    }
}

/// The file name read from a `/`-separated path: its last component,
/// unless that is `..` or there is none.
pub open spec fn body_file_name(b: Seq<char>) -> Option<Seq<char>> {
    match last_component(pieces(b, '/')) {
        Some(c) => if c == ".."@ {
            None
        } else {
            Some(c)
        },
        None => None,
    }
}

/// A path separator: `/`, and on Windows `\` too.
pub open spec fn is_sep(c: char, windows: bool) -> bool {
    c == '/' || (windows && c == '\\')
}

/// An ASCII letter.
pub open spec fn is_ascii_letter(c: char) -> bool {
    (65 <= (c as u32) && (c as u32) <= 90) || (97 <= (c as u32) && (c as u32) <= 122)
}

/// The length of the drive prefix (such as `C:`) that a Windows path
/// starts with, else 0.
pub open spec fn drive_len(p: Seq<char>, windows: bool) -> int {
    if windows && p.len() >= 2 && is_ascii_letter(p[0]) && p[1] == ':' {
        2
    } else {
        0
    }
}

/// A path without its drive prefix, with each separator written `/`.
pub open spec fn path_body(p: Seq<char>, windows: bool) -> Seq<char> {
    let b = p.subrange(drive_len(p, windows), p.len() as int);
    Seq::new(b.len(), |i: int| if is_sep(b[i], windows) { '/' } else { b[i] })
}

/// The file name of a path, as `Path::file_name` gives it on the platform
/// (`windows` or not): the last component after any drive prefix, unless
/// that is `..` or there is none. (Windows prefixes other than a drive,
/// such as `\\server\share`, count as ordinary components here.)
pub open spec fn spec_file_name(p: Seq<char>, windows: bool) -> Option<Seq<char>> {
    body_file_name(path_body(p, windows))
}

/// The index of the last `.` in `s` below `j`, or -1.
pub open spec fn last_dot(s: Seq<char>, j: int) -> int
    decreases j,
{
    if j <= 0 || j > s.len() {
        -1
    } else if s[j - 1] == '.' {
        j - 1
    } else {
        last_dot(s, j - 1)
    }
}

/// The extension of a file name, as `Path::extension` reads it: what
/// follows its last `.`, unless there is no `.` or the only one starts
/// the name.
pub open spec fn name_extension(name: Seq<char>) -> Option<Seq<char>> {
    let d = last_dot(name, name.len() as int);
    if d <= 0 {
        None
    } else {
        Some(name.subrange(d + 1, name.len() as int))
    }
}

/// The extension of a path on the platform.
pub open spec fn spec_extension(p: Seq<char>, windows: bool) -> Option<Seq<char>> {
    match spec_file_name(p, windows) {
        Some(n) => name_extension(n),
        None => None,
    }
}

fn body_file_name_exec(p: &str) -> (r: Option<String>)
    ensures
        match r {
            Some(n) => body_file_name(p@) == Some(n@),
            None => body_file_name(p@) is None,
        },
{
    let cs = chars_of(p);
    let s = cs.as_slice();
    let rs = piece_ranges(s, '/');
    let ghost ps = pieces(s@, '/');
    let dot: [char; 1] = ['.'];
    assert(dot@ =~= "."@) by {
        reveal_strlit(".");
    }
    let dotdot: [char; 2] = ['.', '.'];
    assert(dotdot@ =~= ".."@) by {
        reveal_strlit("..");
    }
    let mut k: usize = rs.len();
    assert(ps.take(k as int) =~= ps);
    while k > 0
        invariant
            k <= rs.len(),
            ps == pieces(p@, '/'),
            ps.len() == rs.len(),
            dot@ == "."@,
            dotdot@ == ".."@,
            ranges_in(s@, rs@),
            slices_of(s@, rs@) == ps,
            last_component(ps.take(k as int)) == last_component(ps),
        decreases k,
    {
        let (a, b) = rs[k - 1];
        assert(ps[k - 1] == s@.subrange(a as int, b as int));
        assert(ps.take(k as int).last() == ps[k - 1]);
        assert(ps.take(k as int).drop_last() =~= ps.take(k - 1));
        let piece = &s[a..b];
        if piece.len() == 0 || chars_eq(piece, &dot) {
            k = k - 1;
        } else {
            if chars_eq(piece, &dotdot) {
                return None;
            }
            return Some(string_from(piece));
        }
    }
    assert(ps.take(0) =~= seq![]);
    None
}

fn path_body_exec(p: &str, windows: bool) -> (r: String)
    ensures
        r@ == path_body(p@, windows),
{
    let cs = chars_of(p);
    let d: usize = if windows && cs.len() >= 2 && is_letter_exec(cs[0]) && cs[1] == ':' {
        2
    } else {
        0
    };
    let ghost b = p@.subrange(d as int, p@.len() as int);
    let mut out = String::new();
    let mut i: usize = d;
    while i < cs.len()
        invariant
            d <= i <= cs.len(),
            cs@ == p@,
            d == drive_len(p@, windows),
            b == p@.subrange(d as int, p@.len() as int),
            out@ == path_body(p@, windows).take(i - d),
        decreases cs.len() - i,
    {
        let c = cs[i];
        if c == '/' || (windows && c == '\\') {
            push_char(&mut out, '/');
        } else {
            push_char(&mut out, c);
        }
        assert(b[i - d] == c);
        i = i + 1;
        assert(out@ =~= path_body(p@, windows).take(i - d));
    }
    assert(path_body(p@, windows).take(i - d) =~= path_body(p@, windows));
    out
}

fn is_letter_exec(c: char) -> (r: bool)
    ensures
        r == is_ascii_letter(c),
{
    let u = c as u32;
    (65 <= u && u <= 90) || (97 <= u && u <= 122)
}

/// The file name of a path, as `Path::file_name` gives it on the platform.
pub fn file_name(p: &str, windows: bool) -> (r: Option<String>)
    ensures
        match r {
            Some(n) => spec_file_name(p@, windows) == Some(n@),
            None => spec_file_name(p@, windows) is None,
        },
{
    let b = path_body_exec(p, windows);
    body_file_name_exec(b.as_str())
}

fn name_extension_exec(n: &[char]) -> (r: Option<&[char]>)
    ensures
        match r {
            Some(e) => name_extension(n@) == Some(e@),
            None => name_extension(n@) is None,
        },
{
    let mut j: usize = n.len();
    while j > 0 && n[j - 1] != '.'
        invariant
            j <= n.len(),
            last_dot(n@, j as int) == last_dot(n@, n@.len() as int),
        decreases j,
    {
        j = j - 1;
    }
    if j <= 1 {
        None
    } else {
        Some(&n[j..n.len()])
    }
}

/// The extension of a path, as `Path::extension` reads it on the platform.
pub fn extension(p: &str, windows: bool) -> (r: Option<String>)
    ensures
        match r {
            Some(e) => spec_extension(p@, windows) == Some(e@),
            None => spec_extension(p@, windows) is None,
        },
{
    match file_name(p, windows) {
        Some(n) => {
            let cs = chars_of(n.as_str());
            match name_extension_exec(cs.as_slice()) {
                Some(e) => Some(string_from(e)),
                None => None,
            }
        },
        None => None,
    }
}

/// The code of `c` with ASCII capitals made small.
pub open spec fn lower_code(c: char) -> int {
    if 65 <= (c as u32) && (c as u32) <= 90 {
        (c as u32) + 32
    } else {
        c as u32 as int
    }
}

/// `s`, with ASCII capitals made small, equals the lowercase word `w`.
pub open spec fn eq_ignore_case(s: Seq<char>, w: Seq<char>) -> bool {
    s.len() == w.len() && forall|i: int| 0 <= i < s.len() ==> lower_code(#[trigger] s[i]) == (w[i] as u32 as int)
}

fn eq_ignore_case_exec(s: &[char], w: &[char]) -> (r: bool)
    ensures
        r == eq_ignore_case(s@, w@),
{
    if s.len() != w.len() {
        return false;
    }
    let mut i: usize = 0;
    while i < s.len()
        invariant
            i <= s.len(),
            s.len() == w.len(),
            forall|q: int| 0 <= q < i ==> lower_code(#[trigger] s@[q]) == (w@[q] as u32 as int),
        decreases s.len() - i,
    {
        let c = s[i] as u32;
        let l = if 65 <= c && c <= 90 {
            c + 32
        } else {
            c
        };
        if l != w[i] as u32 {
            return false;
        }
        i = i + 1;
    }
    true
}

/// A C or C++ source file by its extension: `c`, `cc`, `cxx` or `cpp`,
/// in any case.
pub open spec fn is_source_extension(e: Seq<char>) -> bool {
    eq_ignore_case(e, "c"@) || eq_ignore_case(e, "cc"@) || eq_ignore_case(e, "cxx"@) || eq_ignore_case(e, "cpp"@)
}

/// A built artifact by its extension: `dll`, `exe`, `lib` or `so`, in any case.
pub open spec fn is_artifact_extension(e: Seq<char>) -> bool {
    eq_ignore_case(e, "dll"@) || eq_ignore_case(e, "exe"@) || eq_ignore_case(e, "lib"@) || eq_ignore_case(e, "so"@)
}

/// Whether a path names a C or C++ source file, by its extension.
pub fn is_source_path(p: &str, windows: bool) -> (r: bool)
    ensures
        r == (spec_extension(p@, windows) matches Some(e) && is_source_extension(e)),
{
    match extension(p, windows) {
        Some(e) => {
            let cs = chars_of(e.as_str());
            let s = cs.as_slice();
            eq_ignore_case_exec(s, chars_of("c").as_slice()) || eq_ignore_case_exec(s, chars_of("cc").as_slice())
                || eq_ignore_case_exec(s, chars_of("cxx").as_slice()) || eq_ignore_case_exec(s, chars_of("cpp").as_slice())
        },
        None => false,
    }
}

/// Whether a path names a built artifact, by its extension.
pub fn is_artifact_path(p: &str, windows: bool) -> (r: bool)
    ensures
        r == (spec_extension(p@, windows) matches Some(e) && is_artifact_extension(e)),
{
    match extension(p, windows) {
        Some(e) => {
            let cs = chars_of(e.as_str());
            let s = cs.as_slice();
            eq_ignore_case_exec(s, chars_of("dll").as_slice()) || eq_ignore_case_exec(s, chars_of("exe").as_slice())
                || eq_ignore_case_exec(s, chars_of("lib").as_slice()) || eq_ignore_case_exec(s, chars_of("so").as_slice())
        },
        None => false,
    }
}

} // verus!

verus! {

/// The separator `Path::join` inserts: `\` on Windows, else `/`.
pub open spec fn main_sep(windows: bool) -> char {
    if windows {
        '\\'
    } else {
        '/'
    }
}

/// `root` joined with a relative `name`, as `Path::join` does: a separator
/// goes between them unless `root` is empty, already ends with one, or is
/// a bare Windows drive such as `C:`.
pub open spec fn spec_join(root: Seq<char>, name: Seq<char>, windows: bool) -> Seq<char> {
    if root.len() == 0 || is_sep(root.last(), windows) || (drive_len(root, windows) == 2 && root.len() == 2) {
        root + name
    } else {
        root + seq![main_sep(windows)] + name
    }
}

/// Whether a path is absolute, as `Path::is_absolute` says on the
/// platform: on Windows, a drive with a root (`C:\`, `C:/`) or a path
/// starting with `\\` (a UNC or verbatim prefix); elsewhere, a path
/// starting with `/`.
pub open spec fn spec_is_absolute(p: Seq<char>, windows: bool) -> bool {
    if windows {
        (p.len() >= 2 && p[0] == '\\' && p[1] == '\\') || (drive_len(p, true) == 2 && p.len() >= 3 && is_sep(p[2], true))
    } else {
        p.len() > 0 && p[0] == '/'
    }
}

/// An absolute path as it is; a relative one as its file name under `root`.
pub open spec fn spec_normalize(root: Seq<char>, p: Seq<char>, windows: bool) -> Seq<char> {
    if spec_is_absolute(p, windows) {
        p
    } else {
        spec_join(
            root,
            match spec_file_name(p, windows) {
                Some(n) => n,
                None => seq![],
            },
            windows,
        )
    }
}

/// An absolute path as it is; a relative one as its file name under `root`.
pub fn normalize(root: &str, p: &str, windows: bool) -> (r: String)
    ensures
        r@ == spec_normalize(root@, p@, windows),
{
    let pc = chars_of(p);
    let absolute = if windows {
        (pc.len() >= 2 && pc[0] == '\\' && pc[1] == '\\') || (pc.len() >= 3 && is_letter_exec(pc[0]) && pc[1] == ':' && (
        pc[2] == '/' || pc[2] == '\\'))
    } else {
        pc.len() > 0 && pc[0] == '/'
    };
    if absolute {
        return string_from(pc.as_slice());
    }
    let rc = chars_of(root);
    let mut out = String::new();
    push_str(&mut out, root);
    let bare_drive = windows && rc.len() == 2 && is_letter_exec(rc[0]) && rc[1] == ':';
    if !(rc.len() == 0 || rc[rc.len() - 1] == '/' || (windows && rc[rc.len() - 1] == '\\') || bare_drive) {
        push_char(&mut out, if windows {
            '\\'
        } else {
            '/'
        });
    }
    match file_name(p, windows) {
        Some(n) => {
            push_str(&mut out, n.as_str());
        },
        None => {},
    }
    assert(out@ =~= spec_normalize(root@, p@, windows));
    out
}

/// A file in the artifact directory `bin` is stale when it has an
/// artifact's extension and is not among the expected artifacts. (Paths
/// are compared as text: the expected ones and the normalized file are
/// both the root joined with a file name, the same way.)
pub open spec fn spec_is_stale(p: Seq<char>, expected: Seq<Seq<char>>, windows: bool) -> bool {
    &&& spec_extension(p, windows) matches Some(e) && is_artifact_extension(e)
    &&& !expected.contains(spec_normalize("bin"@, p, windows))
}

/// Whether a file found in `bin` should be removed.
pub fn is_stale_artifact(p: &str, expected: &Vec<String>, windows: bool) -> (r: bool)
    ensures
        r == spec_is_stale(p@, expected.deep_view(), windows),
{
    if !is_artifact_path(p, windows) {
        return false;
    }
    let norm = normalize("bin", p, windows);
    let mut i: usize = 0;
    while i < expected.len()
        invariant
            i <= expected.len(),
            norm@ == spec_normalize("bin"@, p@, windows),
            forall|q: int| 0 <= q < i ==> expected@[q]@ != norm@,
        decreases expected.len() - i,
    {
        if expected[i] == norm {
            assert(expected.deep_view()[i as int] == norm@);
            return false;
        }
        i = i + 1;
    }
    assert forall|q: int| 0 <= q < expected.deep_view().len() implies expected.deep_view()[q] != norm@ by {
        assert(expected.deep_view()[q] == expected@[q]@);
    }
    true
}

} // verus!

verus! {

/// The artifacts that the targets leave in `bin`: each output, and on
/// Windows the import library beside each shared library.
pub open spec fn artifacts_of(g: Seq<NodeSpec>, windows: bool) -> Seq<Seq<char>>
    decreases g.len(),
{
    if g.len() == 0 {
        seq![]
    } else {
        artifacts_of(g.drop_last(), windows) + seq![spec_normalize("bin"@, g.last().output, windows)] + if g.last().kind
            == TargetKind::Sharedlib && windows {
            seq![spec_normalize("bin"@, dll_to_lib(g.last().output), windows)]
        } else {
            seq![]
        }
    }
}

/// The artifacts that the targets of a graph leave in `bin`.
pub fn expected_artifacts(graph: &BuildGraph, windows: bool) -> (r: Vec<String>)
    ensures
        r.deep_view() == artifacts_of(graph@, windows),
{
    let targets = graph.targets();
    let ghost g = graph@;
    let mut out: Vec<String> = Vec::new();
    let mut i: usize = 0;
    assert(g.take(0) =~= seq![]);
    assert(out.deep_view() =~= artifacts_of(g.take(0), windows));
    while i < targets.len()
        invariant
            i <= targets.len(),
            nodes_view(targets@) == g,
            out.deep_view() == artifacts_of(g.take(i as int), windows),
        decreases targets.len() - i,
    {
        let node = &targets[i];
        assert(g[i as int] == node@);
        assert(g.take(i + 1).drop_last() =~= g.take(i as int));
        push_string(&mut out, normalize("bin", node.output.as_str(), windows));
        if node.kind == TargetKind::Sharedlib && windows {
            let lib = dll_to_lib_path(node.output.as_str());
            push_string(&mut out, normalize("bin", lib.as_str(), windows));
        }
        assert(out.deep_view() =~= artifacts_of(g.take(i + 1), windows));
        i = i + 1;
    }
    assert(g.take(i as int) =~= g);
    out
}

} // verus!

verus! {

proof fn lemma_artifacts_contain(g: Seq<NodeSpec>, windows: bool, i: int)
    requires
        0 <= i < g.len(),
    ensures
        artifacts_of(g, windows).contains(spec_normalize("bin"@, g[i].output, windows)),
        g[i].kind == TargetKind::Sharedlib && windows ==> artifacts_of(g, windows).contains(
            spec_normalize("bin"@, dll_to_lib(g[i].output), windows),
        ),
    decreases g.len(),
{
    let h = g.drop_last();
    let a = artifacts_of(h, windows);
    let b = artifacts_of(g, windows);
    assert(b.subrange(0, a.len() as int) =~= a);
    if i < g.len() - 1 {
        lemma_artifacts_contain(h, windows, i);
        assert(h[i] == g[i]);
        let j = choose|j: int| 0 <= j < a.len() && a[j] == spec_normalize("bin"@, g[i].output, windows);
        assert(b[j] == a[j]);
        if g[i].kind == TargetKind::Sharedlib && windows {
            let j2 = choose|j2: int| 0 <= j2 < a.len() && a[j2] == spec_normalize("bin"@, dll_to_lib(g[i].output), windows);
            assert(b[j2] == a[j2]);
        }
    } else {
        assert(b[a.len() as int] == spec_normalize("bin"@, g[i].output, windows));
        if g[i].kind == TargetKind::Sharedlib && windows {
            assert(b[a.len() as int + 1] == spec_normalize("bin"@, dll_to_lib(g[i].output), windows));
        }
    }
}

/// Cleaning `bin` never removes what a target builds: a file that lands
/// where a target's output lands (after normalizing), or on Windows where
/// a shared library's import library lands, is not stale.
pub proof fn lemma_target_artifacts_kept(g: Seq<NodeSpec>, windows: bool, i: int, p: Seq<char>)
    requires
        0 <= i < g.len(),
    ensures
        spec_normalize("bin"@, p, windows) == spec_normalize("bin"@, g[i].output, windows) ==> !spec_is_stale(p, artifacts_of(g, windows), windows),
        g[i].kind == TargetKind::Sharedlib && windows && spec_normalize("bin"@, p, windows) == spec_normalize("bin"@, dll_to_lib(g[i].output), windows) ==> !spec_is_stale(p, artifacts_of(g, windows), windows),
{
    lemma_artifacts_contain(g, windows, i);
}

} // verus!


verus! {

// ---------- normalizing twice ----------

proof fn lemma_pieces_avoid(s: Seq<char>, c: char, d: char, i: int)
    requires
        0 <= i <= s.len(),
        c == d || forall|k: int| 0 <= k < s.len() ==> s[k] != d,
    ensures
        forall|q: int, k: int|
            0 <= q < pieces_from(s, c, i).len() && 0 <= k < pieces_from(s, c, i)[q].len() ==> #[trigger] pieces_from(
                s,
                c,
                i,
            )[q][k] != d,
    decreases s.len() + 1 - i,
{
    lemma_find_from_bounds(s, c, i);
    let e = find_from(s, c, i);
    let ps = pieces_from(s, c, i);
    if e < s.len() {
        lemma_pieces_avoid(s, c, d, e + 1);
        assert forall|q: int, k: int| 0 <= q < ps.len() && 0 <= k < ps[q].len() implies #[trigger] ps[q][k] != d by {
            if q == 0 {
                assert(ps[0] == s.subrange(i, e));
                assert(s[i + k] != c);
            } else {
                assert(ps[q] == pieces_from(s, c, e + 1)[q - 1]);
            }
        }
    } else {
        assert forall|q: int, k: int| 0 <= q < ps.len() && 0 <= k < ps[q].len() implies #[trigger] ps[q][k] != d by {
            assert(ps[0] == s.subrange(i, s.len() as int));
            assert(s[i + k] != c);
        }
    }
}

proof fn lemma_pieces_tail(s: Seq<char>, c: char, i: int, t: int)
    requires
        0 <= i <= t <= s.len(),
        i == t || s[t - 1] == c,
        forall|k: int| t <= k < s.len() ==> s[k] != c,
    ensures
        pieces_from(s, c, i).len() > 0,
        pieces_from(s, c, i).last() == s.subrange(t, s.len() as int),
    decreases s.len() + 1 - i,
{
    lemma_find_from_bounds(s, c, i);
    let e = find_from(s, c, i);
    if i == t {
        assert(e == s.len());
    } else {
        assert(e <= t - 1);
        lemma_pieces_tail(s, c, e + 1, t);
        let rest = pieces_from(s, c, e + 1);
        assert(pieces_from(s, c, i) == seq![s.subrange(i, e)] + rest);
    }
}

proof fn lemma_last_component_member(ps: Seq<Seq<char>>)
    ensures
        last_component(ps) is Some ==> ps.contains(last_component(ps)->0) && (last_component(ps)->0).len() > 0
            && last_component(ps)->0 != "."@,
    decreases ps.len(),
{
    if ps.len() > 0 {
        lemma_last_component_member(ps.drop_last());
        if last_component(ps) is Some {
            let x = last_component(ps)->0;
            if ps.last().len() == 0 || ps.last() == "."@ {
                let q = choose|q: int| 0 <= q < ps.len() - 1 && ps.drop_last()[q] == x;
                assert(ps[q] == x);
            } else {
                assert(ps[ps.len() - 1] == x);
            }
        }
    }
}

/// A file name holds no separator of the platform and is neither empty,
/// `.` nor `..`.
proof fn lemma_file_name_plain(p: Seq<char>, windows: bool)
    requires
        spec_file_name(p, windows) is Some,
    ensures
        ({
            let n = spec_file_name(p, windows)->0;
            &&& n.len() > 0
            &&& n != "."@
            &&& n != ".."@
            &&& forall|k: int| 0 <= k < n.len() ==> !is_sep(#[trigger] n[k], windows)
        }),
{
    let b = path_body(p, windows);
    let ps = pieces(b, '/');
    let n = spec_file_name(p, windows)->0;
    lemma_last_component_member(ps);
    lemma_pieces_avoid(b, '/', '/', 0);
    if windows {
        lemma_pieces_avoid(b, '/', '\\', 0);
    }
    let qi = choose|qi: int| 0 <= qi < ps.len() && ps[qi] == n;
    assert forall|k: int| 0 <= k < n.len() implies !is_sep(#[trigger] n[k], windows) by {
        assert(ps[qi][k] == n[k]);
    }
}

/// Normalizing twice is normalizing once where the path or the root is
/// absolute, or the path has a file name (and, with an empty root, that
/// name does not itself begin like a Windows drive). Elsewhere it fails:
/// `normalize("bin", "..")` is `bin/` (on Windows `bin\`), whose own
/// file name is `bin`, so normalizing again gives `bin/bin`.
pub proof fn lemma_normalize_idempotent(root: Seq<char>, p: Seq<char>, windows: bool)
    requires
        spec_is_absolute(p, windows) || spec_is_absolute(root, windows) || (spec_file_name(p, windows) is Some && (
        root.len() > 0 || drive_len(spec_file_name(p, windows)->0, windows) == 0)),
    ensures
        spec_normalize(root, spec_normalize(root, p, windows), windows) == spec_normalize(root, p, windows),
{
    let w = windows;
    if spec_is_absolute(p, w) {
        return;
    }
    let q = spec_normalize(root, p, w);
    if spec_is_absolute(root, w) {
        assert(q.subrange(0, root.len() as int) =~= root);
        assert(q[0] == root[0]);
        if root.len() >= 2 {
            assert(q[1] == root[1]);
        }
        if root.len() >= 3 {
            assert(q[2] == root[2]);
        }
        assert(spec_is_absolute(q, w));
        return;
    }
    if spec_is_absolute(q, w) {
        return;
    }
    let n = spec_file_name(p, w)->0;
    lemma_file_name_plain(p, w);
    assert(q == spec_join(root, n, w));
    let dq = drive_len(q, w);
    let bq = path_body(q, w);
    let t = q.len() - dq - n.len();
    assert(q.subrange(q.len() - n.len(), q.len() as int) =~= n);
    assert(dq <= q.len() - n.len()) by {
        if root.len() == 0 {
            assert(q =~= n);
        } else if root.len() == 1 {
            if dq == 2 {
                if is_sep(root[0], w) {
                    assert(q[0] == root[0]);
                } else {
                    assert(q[1] == main_sep(w));
                }
            }
        } else {
            assert(q[0] == root[0] && q[1] == root[1]);
        }
    }
    assert(bq.len() == q.len() - dq);
    assert forall|k: int| t <= k < bq.len() implies bq[k] == n[k - t] by {
        assert(q[dq + k] == n[k - t]);
    }
    assert(bq.subrange(t, bq.len() as int) =~= n);
    assert forall|k: int| t <= k < bq.len() implies bq[k] != '/' by {
        assert(bq[k] == n[k - t]);
        assert(!is_sep(n[k - t], w));
    }
    if t > 0 {
        assert(bq[t - 1] == '/') by {
            let j = q.len() - n.len() - 1;
            assert(dq + t - 1 == j);
            if root.len() == 0 || is_sep(root.last(), w) || (drive_len(root, w) == 2 && root.len() == 2) {
                if drive_len(root, w) == 2 && root.len() == 2 && !is_sep(root.last(), w) {
                    assert(q[0] == root[0] && q[1] == root[1]);
                    assert(dq == 2);
                    assert(t == 0);
                }
                assert(root.len() > 0);
                assert(q[j] == root[root.len() - 1]);
            } else {
                assert(q[j] == main_sep(w));
            }
        }
    }
    lemma_pieces_tail(bq, '/', 0, t);
    let qs = pieces(bq, '/');
    assert(qs.last() == n);
    assert(last_component(qs) == Some(n));
    assert(spec_file_name(q, w) == Some(n));
}

} // verus!
