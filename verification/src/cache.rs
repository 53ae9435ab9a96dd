//! Incremental builds: the fingerprints of targets, sources and link
//! steps, the cache that remembers them, and the decisions drawn from it.

use vstd::prelude::*;
use vstd::utf8::encode_utf8;
use crate::config::{Language, TargetKind, name_index, put_named, lemma_name_index_bounds};
use crate::graph::{NodeSpec, TargetNode};
use crate::toolchain::CompilerKind;
use crate::text::push_char;

verus! {

// ---------- BLAKE3 ----------

/// The BLAKE3 digest of a byte string.
pub uninterp spec fn blake3_hash(data: Seq<u8>) -> Seq<u8>;

/// Calls `blake3::hash` and hands back the digest's 32 bytes
/// (`Hash::as_bytes`). Claimed: the bytes are `blake3_hash` of the input,
/// and there are 32 of them (`Hash` wraps a `[u8; 32]`). Feeding the bytes
/// to `Hasher::update` in several pieces gives the same digest, by the
/// crate's documentation, so the library hashes the concatenation once.
#[verifier::external_body]
fn blake3_digest(data: &[u8]) -> (r: Vec<u8>)
    ensures
        r@ == blake3_hash(data@),
        r@.len() == 32,
{
    blake3::hash(data).as_bytes().to_vec()
}

/// The digest of a file's contents.
pub fn hash_file_content(content: &[u8]) -> (r: Vec<u8>)
    ensures
        r@ == blake3_hash(content@),
        r@.len() == 32,
{
    blake3_digest(content)
}

/// The lowercase hex digits.
pub open spec fn hex_digits() -> Seq<char> {
    seq!['0', '1', '2', '3', '4', '5', '6', '7', '8', '9', 'a', 'b', 'c', 'd', 'e', 'f']
}

/// Bytes as lowercase hex, two digits a byte, high digit first, as
/// `Hash::to_hex` writes a digest.
pub open spec fn hex_lower(bs: Seq<u8>) -> Seq<char>
    decreases bs.len(),
{
    if bs.len() == 0 {
        seq![]
    } else {
        hex_lower(bs.drop_last()) + seq![hex_digits()[(bs.last() / 16) as int], hex_digits()[(bs.last() % 16) as int]]
    }
}

/// Bytes as lowercase hex.
pub fn to_hex(bs: &[u8]) -> (r: String)
    ensures
        r@ == hex_lower(bs@),
{
    let table: [char; 16] = ['0', '1', '2', '3', '4', '5', '6', '7', '8', '9', 'a', 'b', 'c', 'd', 'e', 'f'];
    assert(table@ =~= hex_digits());
    let mut out = String::new();
    let mut i: usize = 0;
    assert(bs@.take(0) =~= seq![]);
    while i < bs.len()
        invariant
            i <= bs.len(),
            table@ == hex_digits(),
            out@ == hex_lower(bs@.take(i as int)),
        decreases bs.len() - i,
    {
        let b = bs[i];
        push_char(&mut out, table[(b / 16) as usize]);
        push_char(&mut out, table[(b % 16) as usize]);
        assert(bs@.take(i + 1).drop_last() =~= bs@.take(i as int));
        assert(out@ =~= hex_lower(bs@.take(i + 1)));
        i = i + 1;
    }
    assert(bs@.take(i as int) =~= bs@);
    out
}

/// The fingerprint of some bytes: their BLAKE3 digest in lowercase hex.
pub open spec fn fingerprint(data: Seq<u8>) -> Seq<char> {
    hex_lower(blake3_hash(data))
}

fn fingerprint_exec(data: &[u8]) -> (r: String)
    ensures
        r@ == fingerprint(data@),
{
    let d = blake3_digest(data);
    to_hex(d.as_slice())
}

// ---------- the names that go into fingerprints ----------

pub open spec fn target_kind_text(k: TargetKind) -> Seq<char> {
    match k {
        TargetKind::Exe => "Exe"@,
        TargetKind::Staticlib => "Staticlib"@,
        TargetKind::Sharedlib => "Sharedlib"@,
    }
}

pub open spec fn language_text(l: Language) -> Seq<char> {
    match l {
        Language::C => "C"@,
        Language::Cpp => "Cpp"@,
    }
}

pub open spec fn compiler_kind_text(k: CompilerKind) -> Seq<char> {
    match k {
        CompilerKind::ClangCpp => "ClangCpp"@,
        CompilerKind::ClangC => "ClangC"@,
        CompilerKind::Gpp => "Gpp"@,
        CompilerKind::Cl => "Cl"@,
    }
}

fn target_kind_str(k: TargetKind) -> (r: &'static str)
    ensures
        r@ == target_kind_text(k),
{
    match k {
        TargetKind::Exe => "Exe",
        TargetKind::Staticlib => "Staticlib",
        TargetKind::Sharedlib => "Sharedlib",
    }
}

fn language_str(l: Language) -> (r: &'static str)
    ensures
        r@ == language_text(l),
{
    match l {
        Language::C => "C",
        Language::Cpp => "Cpp",
    }
}

fn compiler_kind_str(k: CompilerKind) -> (r: &'static str)
    ensures
        r@ == compiler_kind_text(k),
{
    match k {
        CompilerKind::ClangCpp => "ClangCpp",
        CompilerKind::ClangC => "ClangC",
        CompilerKind::Gpp => "Gpp",
        CompilerKind::Cl => "Cl",
    }
}

// ---------- byte strings ----------

fn extend_bytes(v: &mut Vec<u8>, b: &[u8])
    ensures
        final(v)@ == old(v)@ + b@,
{
    let mut i: usize = 0;
    while i < b.len()
        invariant
            i <= b.len(),
            v@ == old(v)@ + b@.take(i as int),
        decreases b.len() - i,
    {
        v.push(b[i]);
        assert(v@ =~= old(v)@ + b@.take(i + 1));
        i = i + 1;
    }
    assert(b@.take(i as int) =~= b@);
}

fn extend_text(v: &mut Vec<u8>, s: &str)
    ensures
        final(v)@ == old(v)@ + encode_utf8(s@),
{
    extend_bytes(v, s.as_bytes());
}

/// The UTF-8 bytes of each string, one after another.
pub open spec fn texts_bytes(ss: Seq<Seq<char>>) -> Seq<u8>
    decreases ss.len(),
{
    if ss.len() == 0 {
        seq![]
    } else {
        texts_bytes(ss.drop_last()) + encode_utf8(ss.last())
    }
}

fn extend_texts(v: &mut Vec<u8>, ss: &Vec<String>)
    ensures
        final(v)@ == old(v)@ + texts_bytes(ss.deep_view()),
{
    let ghost sv = ss.deep_view();
    let mut i: usize = 0;
    assert(sv.take(0) =~= seq![]);
    assert(v@ =~= old(v)@ + texts_bytes(sv.take(0)));
    while i < ss.len()
        invariant
            i <= ss.len(),
            sv == ss.deep_view(),
            v@ == old(v)@ + texts_bytes(sv.take(i as int)),
        decreases ss.len() - i,
    {
        extend_text(v, ss[i].as_str());
        assert(sv.take(i + 1).drop_last() =~= sv.take(i as int));
        assert(sv[i as int] == ss@[i as int]@);
        assert(v@ =~= old(v)@ + texts_bytes(sv.take(i + 1)));
        i = i + 1;
    }
    assert(sv.take(i as int) =~= sv);
}

/// Each digest, or the given placeholder where there is none.
pub open spec fn digests_or(ds: Seq<Option<Seq<u8>>>, missing: Seq<u8>) -> Seq<u8>
    decreases ds.len(),
{
    if ds.len() == 0 {
        seq![]
    } else {
        digests_or(ds.drop_last(), missing) + match ds.last() {
            Some(d) => d,
            None => missing,
        }
    }
}

/// The digests, one after another.
pub open spec fn digests_all(ds: Seq<Seq<u8>>) -> Seq<u8>
    decreases ds.len(),
{
    if ds.len() == 0 {
        seq![]
    } else {
        digests_all(ds.drop_last()) + ds.last()
    }
}

pub open spec fn opt_digests_view(ds: Seq<Option<Vec<u8>>>) -> Seq<Option<Seq<u8>>> {
    Seq::new(
        ds.len(),
        |i: int|
            match ds[i] {
                Some(d) => Some(d@),
                None => None,
            },
    )
}

pub open spec fn digests_view(ds: Seq<Vec<u8>>) -> Seq<Seq<u8>> {
    Seq::new(ds.len(), |i: int| ds[i]@)
}

fn extend_digests_or(v: &mut Vec<u8>, ds: &Vec<Option<Vec<u8>>>, missing: &str)
    ensures
        final(v)@ == old(v)@ + digests_or(opt_digests_view(ds@), encode_utf8(missing@)),
{
    let ghost dv = opt_digests_view(ds@);
    let ghost m = encode_utf8(missing@);
    let mut i: usize = 0;
    assert(dv.take(0) =~= seq![]);
    assert(v@ =~= old(v)@ + digests_or(dv.take(0), m));
    while i < ds.len()
        invariant
            i <= ds.len(),
            dv == opt_digests_view(ds@),
            m == encode_utf8(missing@),
            v@ == old(v)@ + digests_or(dv.take(i as int), m),
        decreases ds.len() - i,
    {
        match &ds[i] {
            Some(d) => extend_bytes(v, d.as_slice()),
            None => extend_text(v, missing),
        }
        assert(dv.take(i + 1).drop_last() =~= dv.take(i as int));
        assert(v@ =~= old(v)@ + digests_or(dv.take(i + 1), m));
        i = i + 1;
    }
    assert(dv.take(i as int) =~= dv);
}

fn extend_digests(v: &mut Vec<u8>, ds: &Vec<Vec<u8>>)
    ensures
        final(v)@ == old(v)@ + digests_all(digests_view(ds@)),
{
    let ghost dv = digests_view(ds@);
    let mut i: usize = 0;
    assert(dv.take(0) =~= seq![]);
    assert(v@ =~= old(v)@ + digests_all(dv.take(0)));
    while i < ds.len()
        invariant
            i <= ds.len(),
            dv == digests_view(ds@),
            v@ == old(v)@ + digests_all(dv.take(i as int)),
        decreases ds.len() - i,
    {
        extend_bytes(v, ds[i].as_slice());
        assert(dv.take(i + 1).drop_last() =~= dv.take(i as int));
        assert(v@ =~= old(v)@ + digests_all(dv.take(i + 1)));
        i = i + 1;
    }
    assert(dv.take(i as int) =~= dv);
}

} // verus!

verus! {

// ---------- fingerprints ----------

/// What a target's fingerprint covers: its kind and language, the digest
/// of each dependency's output (or `missing-dep-output`), and its flags.
pub open spec fn meta_input(n: NodeSpec, dep_digests: Seq<Option<Seq<u8>>>) -> Seq<u8> {
    encode_utf8(target_kind_text(n.kind)) + encode_utf8(language_text(n.language)) + digests_or(
        dep_digests,
        encode_utf8("missing-dep-output"@),
    ) + texts_bytes(n.cflags) + texts_bytes(n.cppflags) + texts_bytes(n.ldflags)
}

/// The fingerprint of a target's own settings and of its dependencies'
/// outputs. `dep_digests[k]` is the digest of the `k`-th dependency's
/// output, where that exists.
pub fn target_fingerprint(node: &TargetNode, dep_digests: &Vec<Option<Vec<u8>>>) -> (r: String)
    ensures
        r@ == fingerprint(meta_input(node@, opt_digests_view(dep_digests@))),
{
    let mut v: Vec<u8> = Vec::new();
    extend_text(&mut v, target_kind_str(node.kind));
    extend_text(&mut v, language_str(node.language));
    extend_digests_or(&mut v, dep_digests, "missing-dep-output");
    extend_texts(&mut v, &node.cflags);
    extend_texts(&mut v, &node.cppflags);
    extend_texts(&mut v, &node.ldflags);
    assert(v@ =~= meta_input(node@, opt_digests_view(dep_digests@)));
    fingerprint_exec(v.as_slice())
}

/// What is known of one source of a target before it is compiled.
#[derive(Debug)]
pub struct SourceFacts {
    /// The digest of the source file.
    pub digest: Vec<u8>,
    /// The digests of the headers its dependency file lists that exist.
    pub header_digests: Vec<Vec<u8>>,
    /// Whether its object file exists.
    pub obj_exists: bool,
    /// Whether its dependency file exists.
    pub depfile_exists: bool,
}

pub struct FactsSpec {
    pub digest: Seq<u8>,
    pub headers: Seq<Seq<u8>>,
    pub obj_exists: bool,
    pub depfile_exists: bool,
}

impl View for SourceFacts {
    type V = FactsSpec;

    open spec fn view(&self) -> FactsSpec {
        FactsSpec {
            digest: self.digest@,
            headers: digests_view(self.header_digests@),
            obj_exists: self.obj_exists,
            depfile_exists: self.depfile_exists,
        }
    }
}

pub open spec fn facts_view(fs: Seq<SourceFacts>) -> Seq<FactsSpec> {
    Seq::new(fs.len(), |i: int| fs[i]@)
}

/// What a source's fingerprint covers: the source, its headers, the
/// target's language, the compiler, and the compile flags.
pub open spec fn source_input(n: NodeSpec, ck: CompilerKind, f: FactsSpec) -> Seq<u8> {
    f.digest + digests_all(f.headers) + encode_utf8(language_text(n.language)) + encode_utf8(
        compiler_kind_text(ck),
    ) + texts_bytes(n.cflags) + texts_bytes(n.cppflags)
}

pub open spec fn source_fp(n: NodeSpec, ck: CompilerKind, f: FactsSpec) -> Seq<char> {
    fingerprint(source_input(n, ck, f))
}

/// The fingerprint of one source of a target.
pub fn source_fingerprint(node: &TargetNode, ck: CompilerKind, facts: &SourceFacts) -> (r: String)
    ensures
        r@ == source_fp(node@, ck, facts@),
{
    let mut v: Vec<u8> = Vec::new();
    extend_bytes(&mut v, facts.digest.as_slice());
    extend_digests(&mut v, &facts.header_digests);
    extend_text(&mut v, language_str(node.language));
    extend_text(&mut v, compiler_kind_str(ck));
    extend_texts(&mut v, &node.cflags);
    extend_texts(&mut v, &node.cppflags);
    assert(v@ =~= source_input(node@, ck, facts@));
    fingerprint_exec(v.as_slice())
}

/// What a link's fingerprint covers: the compiler, the target's kind and
/// output, each object's digest (or `missing-obj`), each dependency's
/// output digest (or `missing-dep-output`), and the link flags.
pub open spec fn link_input(
    ck: CompilerKind,
    n: NodeSpec,
    obj_digests: Seq<Option<Seq<u8>>>,
    dep_digests: Seq<Option<Seq<u8>>>,
) -> Seq<u8> {
    encode_utf8(compiler_kind_text(ck)) + encode_utf8(target_kind_text(n.kind)) + encode_utf8(n.output)
        + digests_or(obj_digests, encode_utf8("missing-obj"@)) + digests_or(
        dep_digests,
        encode_utf8("missing-dep-output"@),
    ) + texts_bytes(n.ldflags)
}

/// The fingerprint of a target's link step.
pub fn link_fingerprint(
    ck: CompilerKind,
    node: &TargetNode,
    obj_digests: &Vec<Option<Vec<u8>>>,
    dep_digests: &Vec<Option<Vec<u8>>>,
) -> (r: String)
    ensures
        r@ == fingerprint(link_input(ck, node@, opt_digests_view(obj_digests@), opt_digests_view(dep_digests@))),
{
    let mut v: Vec<u8> = Vec::new();
    extend_text(&mut v, compiler_kind_str(ck));
    extend_text(&mut v, target_kind_str(node.kind));
    extend_text(&mut v, node.output.as_str());
    extend_digests_or(&mut v, obj_digests, "missing-obj");
    extend_digests_or(&mut v, dep_digests, "missing-dep-output");
    extend_texts(&mut v, &node.ldflags);
    assert(v@ =~= link_input(ck, node@, opt_digests_view(obj_digests@), opt_digests_view(dep_digests@)));
    fingerprint_exec(v.as_slice())
}

} // verus!

verus! {

// ---------- the build cache ----------

/// What was recorded of a target the last time it was built.
#[derive(Debug)]
pub struct TargetCache {
    /// The target's fingerprint.
    pub target_hash: String,
    /// The fingerprint of its last link step (empty where none was recorded).
    pub link_hash: String,
    /// The fingerprint of each source, by path.
    pub sources: Vec<(String, String)>,
}

pub struct TargetCacheSpec {
    pub target_hash: Seq<char>,
    pub link_hash: Seq<char>,
    pub sources: Seq<(Seq<char>, Seq<char>)>,
}

pub open spec fn pairs_view(ps: Seq<(String, String)>) -> Seq<(Seq<char>, Seq<char>)> {
    Seq::new(ps.len(), |i: int| (ps[i].0@, ps[i].1@))
}

impl View for TargetCache {
    type V = TargetCacheSpec;

    open spec fn view(&self) -> TargetCacheSpec {
        TargetCacheSpec {
            target_hash: self.target_hash@,
            link_hash: self.link_hash@,
            sources: pairs_view(self.sources@),
        }
    }
}

/// The record of every target, by name.
#[derive(Debug)]
pub struct BuildCache {
    pub targets: Vec<(String, TargetCache)>,
}

pub open spec fn entries_of(ts: Seq<(String, TargetCache)>) -> Seq<(Seq<char>, TargetCacheSpec)> {
    Seq::new(ts.len(), |i: int| (ts[i].0@, ts[i].1@))
}

impl View for BuildCache {
    type V = Seq<(Seq<char>, TargetCacheSpec)>;

    open spec fn view(&self) -> Seq<(Seq<char>, TargetCacheSpec)> {
        entries_of(self.targets@)
    }
}

/// The value recorded under `k`, where there is one.
pub open spec fn lookup<T>(s: Seq<(Seq<char>, T)>, k: Seq<char>) -> Option<T> {
    let i = name_index(s, k, 0);
    if i < s.len() {
        Some(s[i].1)
    } else {
        None
    }
}

pub open spec fn empty_entry() -> TargetCacheSpec {
    TargetCacheSpec { target_hash: seq![], link_hash: seq![], sources: seq![] }
}

fn clone_pairs(ps: &Vec<(String, String)>) -> (r: Vec<(String, String)>)
    ensures
        pairs_view(r@) == pairs_view(ps@),
{
    let mut out: Vec<(String, String)> = Vec::new();
    let mut i: usize = 0;
    while i < ps.len()
        invariant
            i <= ps.len(),
            out.len() == i,
            pairs_view(out@) == pairs_view(ps@).take(i as int),
        decreases ps.len() - i,
    {
        let p = (ps[i].0.clone(), ps[i].1.clone());
        let ghost before = out@;
        out.push(p);
        assert(pairs_view(out@) =~= pairs_view(ps@).take(i + 1)) by {
            assert forall|q: int| 0 <= q < i + 1 implies #[trigger] pairs_view(out@)[q] == pairs_view(ps@).take(i + 1)[q] by {
                if q < i {
                    assert(out@[q] == before[q]);
                    assert(pairs_view(before)[q] == pairs_view(ps@).take(i as int)[q]);
                }
            }
        }
        i = i + 1;
    }
    assert(pairs_view(ps@).take(i as int) =~= pairs_view(ps@));
    out
}

fn put_pair(ps: &mut Vec<(String, String)>, k: String, v: String)
    ensures
        pairs_view(final(ps)@) == put_named(pairs_view(old(ps)@), k@, v@),
{
    let ghost s = pairs_view(ps@);
    proof {
        lemma_name_index_bounds(s, k@, 0);
    }
    let mut i: usize = 0;
    while i < ps.len() && ps[i].0 != k
        invariant
            i <= ps.len(),
            s == pairs_view(ps@),
            name_index(s, k@, i as int) == name_index(s, k@, 0),
        decreases ps.len() - i,
    {
        i = i + 1;
    }
    let ghost kv = k@;
    let ghost vv = v@;
    if i < ps.len() {
        assert(name_index(s, kv, i as int) == i as int);
        ps.set(i, (k, v));
        assert(pairs_view(ps@) =~= s.update(i as int, (kv, vv)));
    } else {
        ps.push((k, v));
        assert(pairs_view(ps@) =~= s.push((kv, vv)));
    }
}

fn find_pair<'a>(ps: &'a Vec<(String, String)>, k: &String) -> (r: Option<&'a String>)
    ensures
        match r {
            Some(v) => lookup(pairs_view(ps@), k@) == Some(v@),
            None => lookup(pairs_view(ps@), k@) is None,
        },
{
    let ghost s = pairs_view(ps@);
    proof {
        lemma_name_index_bounds(s, k@, 0);
    }
    let mut i: usize = 0;
    while i < ps.len() && ps[i].0 != *k
        invariant
            i <= ps.len(),
            s == pairs_view(ps@),
            name_index(s, k@, i as int) == name_index(s, k@, 0),
        decreases ps.len() - i,
    {
        i = i + 1;
    }
    if i < ps.len() {
        Some(&ps[i].1)
    } else {
        None
    }
}

impl BuildCache {
    /// An empty cache.
    pub fn new() -> (r: BuildCache)
        ensures
            r@ == Seq::<(Seq<char>, TargetCacheSpec)>::empty(),
    {
        let r = BuildCache { targets: Vec::new() };
        assert(r@ =~= Seq::<(Seq<char>, TargetCacheSpec)>::empty());
        r
    }

    /// What is recorded of the target `name`, or an empty record.
    pub fn entry(&self, name: &String) -> (r: TargetCache)
        ensures
            r@ == match lookup(self@, name@) {
                Some(e) => e,
                None => empty_entry(),
            },
    {
        let ghost s = self@;
        proof {
            lemma_name_index_bounds(s, name@, 0);
        }
        let mut i: usize = 0;
        while i < self.targets.len() && self.targets[i].0 != *name
            invariant
                i <= self.targets.len(),
                s == self@,
                name_index(s, name@, i as int) == name_index(s, name@, 0),
            decreases self.targets.len() - i,
        {
            i = i + 1;
        }
        if i < self.targets.len() {
            let e = &self.targets[i].1;
            TargetCache {
                target_hash: e.target_hash.clone(),
                link_hash: e.link_hash.clone(),
                sources: clone_pairs(&e.sources),
            }
        } else {
            let r = TargetCache { target_hash: String::new(), link_hash: String::new(), sources: Vec::new() };
            assert(r@.sources =~= seq![]);
            r
        }
    }

    /// Records `entry` for the target `name`, replacing what was there.
    pub fn store(&mut self, name: String, entry: TargetCache)
        ensures
            final(self)@ == put_named(old(self)@, name@, entry@),
    {
        let ghost s = self@;
        proof {
            lemma_name_index_bounds(s, name@, 0);
        }
        let mut i: usize = 0;
        while i < self.targets.len() && self.targets[i].0 != name
            invariant
                i <= self.targets.len(),
                s == self@,
                name_index(s, name@, i as int) == name_index(s, name@, 0),
            decreases self.targets.len() - i,
        {
            i = i + 1;
        }
        let ghost kv = name@;
        let ghost ev = entry@;
        if i < self.targets.len() {
            assert(name_index(s, kv, i as int) == i as int);
            self.targets.set(i, (name, entry));
            assert(self@ =~= s.update(i as int, (kv, ev)));
        } else {
            self.targets.push((name, entry));
            assert(self@ =~= s.push((kv, ev)));
        }
    }
}

} // verus!

verus! {

// ---------- deciding what to rebuild ----------

/// The source fingerprints of the first `k` sources, recorded by path.
pub open spec fn new_sources(n: NodeSpec, ck: CompilerKind, facts: Seq<FactsSpec>, k: int) -> Seq<(Seq<char>, Seq<char>)>
    decreases k,
{
    if k <= 0 {
        seq![]
    } else {
        put_named(new_sources(n, ck, facts, k - 1), n.sources[k - 1], source_fp(n, ck, facts[k - 1]))
    }
}

/// A source needs compiling when its object or dependency file is
/// missing, or its fingerprint differs from the recorded one.
pub open spec fn needs_compile(old: TargetCacheSpec, path: Seq<char>, fp: Seq<char>, f: FactsSpec) -> bool {
    !f.obj_exists || !f.depfile_exists || lookup(old.sources, path) != Some(fp)
}

/// The indices of the first `k` sources that need compiling.
pub open spec fn compile_list(n: NodeSpec, ck: CompilerKind, old: TargetCacheSpec, facts: Seq<FactsSpec>, k: int) -> Seq<usize>
    decreases k,
{
    if k <= 0 {
        seq![]
    } else {
        compile_list(n, ck, old, facts, k - 1) + if needs_compile(
            old,
            n.sources[k - 1],
            source_fp(n, ck, facts[k - 1]),
            facts[k - 1],
        ) {
            seq![(k - 1) as usize]
        } else {
            seq![]
        }
    }
}

/// What to do for a target before its link step.
#[derive(Debug)]
pub struct CompilePlan {
    /// The new record of the target, without a link fingerprint.
    pub entry: TargetCache,
    /// The indices of the sources to compile.
    pub to_compile: Vec<usize>,
    /// Nothing needs compiling, the target's fingerprint is unchanged,
    /// and its output exists: the target is up to date.
    pub up_to_date: bool,
}

pub struct PlanSpec {
    pub entry: TargetCacheSpec,
    pub to_compile: Seq<usize>,
    pub up_to_date: bool,
}

impl View for CompilePlan {
    type V = PlanSpec;

    open spec fn view(&self) -> PlanSpec {
        PlanSpec { entry: self.entry@, to_compile: self.to_compile@, up_to_date: self.up_to_date }
    }
}

/// What to do for target `n` before linking, given its last record `old`,
/// its dependencies' output digests, what is known of its sources, and
/// whether its output exists.
pub open spec fn spec_plan(
    n: NodeSpec,
    ck: CompilerKind,
    old: TargetCacheSpec,
    dep_digests: Seq<Option<Seq<u8>>>,
    facts: Seq<FactsSpec>,
    output_exists: bool,
) -> PlanSpec {
    let meta = fingerprint(meta_input(n, dep_digests));
    let list = compile_list(n, ck, old, facts, facts.len() as int);
    PlanSpec {
        entry: TargetCacheSpec {
            target_hash: meta,
            link_hash: seq![],
            sources: new_sources(n, ck, facts, facts.len() as int),
        },
        to_compile: list,
        up_to_date: list.len() == 0 && old.target_hash == meta && output_exists,
    }
}

/// Decides, for one target, which sources to compile and whether the
/// target is up to date, and makes its new record.
pub fn plan_target(
    node: &TargetNode,
    ck: CompilerKind,
    old: &TargetCache,
    dep_digests: &Vec<Option<Vec<u8>>>,
    facts: &Vec<SourceFacts>,
    output_exists: bool,
) -> (r: CompilePlan)
    requires
        facts.len() == node.sources.len(),
    ensures
        r@ == spec_plan(node@, ck, old@, opt_digests_view(dep_digests@), facts_view(facts@), output_exists),
{
    let ghost n = node@;
    let ghost fv = facts_view(facts@);
    let meta = target_fingerprint(node, dep_digests);
    let mut sources: Vec<(String, String)> = Vec::new();
    let mut to_compile: Vec<usize> = Vec::new();
    let mut i: usize = 0;
    assert(pairs_view(sources@) =~= new_sources(n, ck, fv, 0));
    assert(to_compile@ =~= compile_list(n, ck, old@, fv, 0));
    while i < facts.len()
        invariant
            i <= facts.len(),
            facts.len() == node.sources.len(),
            n == node@,
            fv == facts_view(facts@),
            pairs_view(sources@) == new_sources(n, ck, fv, i as int),
            to_compile@ == compile_list(n, ck, old@, fv, i as int),
        decreases facts.len() - i,
    {
        let f = &facts[i];
        assert(fv[i as int] == f@);
        let path = &node.sources[i];
        assert(n.sources[i as int] == path@);
        let fp = source_fingerprint(node, ck, f);
        let changed = match find_pair(&old.sources, path) {
            Some(h) => *h != fp,
            None => true,
        };
        if !f.obj_exists || !f.depfile_exists || changed {
            to_compile.push(i);
        }
        assert(to_compile@ =~= compile_list(n, ck, old@, fv, i + 1));
        put_pair(&mut sources, path.clone(), fp);
        i = i + 1;
    }
    let up_to_date = to_compile.len() == 0 && old.target_hash == meta && output_exists;
    let entry = TargetCache { target_hash: meta, link_hash: String::new(), sources };
    assert(entry@.link_hash =~= seq![]);
    CompilePlan { entry, to_compile, up_to_date }
}

/// Whether the link step can be skipped: its fingerprint is the recorded
/// one and the output (as it was before compiling) exists.
pub fn link_up_to_date(old: &TargetCache, link_fp: &String, output_exists: bool) -> (r: bool)
    ensures
        r == (old@.link_hash == link_fp@ && output_exists),
{
    old.link_hash == *link_fp && output_exists
}

/// A record with the given link fingerprint.
pub fn with_link_hash(entry: TargetCache, link_fp: String) -> (r: TargetCache)
    ensures
        r@ == (TargetCacheSpec { link_hash: link_fp@, ..entry@ }),
{
    let mut entry = entry;
    entry.link_hash = link_fp;
    entry
}

/// How the build of one target went.
#[derive(Debug)]
pub enum BuildResult {
    /// It was found up to date before compiling; nothing was run.
    UpToDate(CompilePlan),
    /// Its sources were compiled and its link step, with this fingerprint,
    /// was skipped as up to date or ran and succeeded.
    Built(CompilePlan, String),
    /// A step failed: a file could not be read, or a compile or link failed.
    Failed,
}

/// Records in the cache how the build of target `name` went: the new
/// record on success (with the link fingerprint where the target was
/// linked), and nothing at all on failure.
pub fn record_build(cache: &mut BuildCache, name: String, result: BuildResult)
    requires
        result matches BuildResult::UpToDate(p) ==> p@.up_to_date,
        result matches BuildResult::Built(p, _) ==> !p@.up_to_date,
    ensures
        match result {
            BuildResult::UpToDate(p) => final(cache)@ == put_named(old(cache)@, name@, p@.entry),
            BuildResult::Built(p, fp) => final(cache)@ == put_named(
                old(cache)@,
                name@,
                TargetCacheSpec { link_hash: fp@, ..p@.entry },
            ),
            BuildResult::Failed => final(cache)@ == old(cache)@,
        },
{
    match result {
        BuildResult::UpToDate(p) => cache.store(name, p.entry),
        BuildResult::Built(p, fp) => cache.store(name, with_link_hash(p.entry, fp)),
        BuildResult::Failed => {},
    }
}

} // verus!

verus! {

// ---------- the incremental-build law ----------

pub proof fn lemma_lookup_put<T>(s: Seq<(Seq<char>, T)>, key: Seq<char>, v: T, x: Seq<char>)
    ensures
        lookup(put_named(s, key, v), x) == if x == key {
            Some(v)
        } else {
            lookup(s, x)
        },
{
    let t = put_named(s, key, v);
    let k0 = name_index(s, key, 0);
    lemma_name_index_bounds(s, key, 0);
    lemma_name_index_bounds(s, x, 0);
    lemma_name_index_bounds(t, x, 0);
    let a = name_index(t, x, 0);
    let b = name_index(s, x, 0);
    assert(forall|j: int| 0 <= j < s.len() && j != k0 ==> #[trigger] t[j] == s[j]);
    assert(t[k0] == (key, v));
    if x == key {
        if a < k0 {
            assert(t[a] == s[a]);
        }
        if a > k0 {
            assert(t[k0].0 != x);
        }
        assert(a == k0);
    } else {
        if a < t.len() {
            assert(a != k0);
            assert(t[a] == s[a]);
            if b < a {
                assert(t[b] == s[b]);
            }
            assert(b == a);
        } else {
            if b < s.len() {
                assert(b != k0);
                assert(t[b] == s[b]);
            }
        }
    }
}

/// The recorded fingerprints hold, for each of the first `k` sources, the
/// fingerprint of that source (sources with the same path having the same
/// facts).
pub proof fn lemma_new_sources_lookup(n: NodeSpec, ck: CompilerKind, facts: Seq<FactsSpec>, k: int, i: int)
    requires
        0 <= i < k <= facts.len(),
        facts.len() == n.sources.len(),
        forall|a: int, b: int|
            0 <= a < facts.len() && 0 <= b < facts.len() && n.sources[a] == n.sources[b] ==> #[trigger] facts[a] == #[trigger] facts[b],
    ensures
        lookup(new_sources(n, ck, facts, k), n.sources[i]) == Some(source_fp(n, ck, facts[i])),
    decreases k,
{
    lemma_lookup_put(new_sources(n, ck, facts, k - 1), n.sources[k - 1], source_fp(n, ck, facts[k - 1]), n.sources[i]);
    if i < k - 1 && n.sources[i] != n.sources[k - 1] {
        lemma_new_sources_lookup(n, ck, facts, k - 1, i);
    }
    if n.sources[i] == n.sources[k - 1] {
        assert(facts[i] == facts[k - 1]);
    }
}

pub proof fn lemma_compile_list_empty(n: NodeSpec, ck: CompilerKind, old: TargetCacheSpec, facts: Seq<FactsSpec>, k: int)
    requires
        0 <= k <= facts.len(),
        forall|i: int| 0 <= i < k ==> !needs_compile(old, n.sources[i], source_fp(n, ck, #[trigger] facts[i]), facts[i]),
    ensures
        compile_list(n, ck, old, facts, k).len() == 0,
    decreases k,
{
    if k > 0 {
        lemma_compile_list_empty(n, ck, old, facts, k - 1);
        assert(!needs_compile(old, n.sources[k - 1], source_fp(n, ck, facts[k - 1]), facts[k - 1]));
    }
}

/// A target that was just built is up to date on the next run when nothing
/// it depends on has changed: the same sources with the same contents and
/// headers, the same settings and compiler, the same dependency outputs,
/// its object and dependency files and its output present. Nothing is
/// compiled then, whatever link fingerprint was recorded. (Sources listed
/// twice under one path are read once, so they have the same facts.)
pub proof fn lemma_unchanged_target_is_up_to_date(
    n: NodeSpec,
    ck: CompilerKind,
    prev: TargetCacheSpec,
    prev_output_exists: bool,
    dep_digests: Seq<Option<Seq<u8>>>,
    facts: Seq<FactsSpec>,
    link_hash: Seq<char>,
)
    requires
        facts.len() == n.sources.len(),
        forall|i: int| 0 <= i < facts.len() ==> (#[trigger] facts[i]).obj_exists && facts[i].depfile_exists,
        forall|a: int, b: int|
            0 <= a < facts.len() && 0 <= b < facts.len() && n.sources[a] == n.sources[b] ==> #[trigger] facts[a] == #[trigger] facts[b],
    ensures
        ({
            let e = TargetCacheSpec {
                link_hash,
                ..spec_plan(n, ck, prev, dep_digests, facts, prev_output_exists).entry
            };
            &&& spec_plan(n, ck, e, dep_digests, facts, true).up_to_date
            &&& spec_plan(n, ck, e, dep_digests, facts, true).to_compile.len() == 0
        }),
{
    let e = TargetCacheSpec { link_hash, ..spec_plan(n, ck, prev, dep_digests, facts, prev_output_exists).entry };
    assert forall|i: int| 0 <= i < facts.len() implies !needs_compile(e, n.sources[i], source_fp(n, ck, #[trigger] facts[i]), facts[i]) by {
        lemma_new_sources_lookup(n, ck, facts, facts.len() as int, i);
    }
    lemma_compile_list_empty(n, ck, e, facts, facts.len() as int);
}

} // verus!

verus! {

/// Reading the cache gives back what was last stored for that target, and
/// storing one target's record leaves the others' as they were.
pub proof fn lemma_cache_read_after_write(
    c: Seq<(Seq<char>, TargetCacheSpec)>,
    name: Seq<char>,
    e: TargetCacheSpec,
    other: Seq<char>,
)
    ensures
        lookup(put_named(c, name, e), name) == Some(e),
        other != name ==> lookup(put_named(c, name, e), other) == lookup(c, other),
{
    lemma_lookup_put(c, name, e, name);
    lemma_lookup_put(c, name, e, other);
}

} // verus!

verus! {

proof fn lemma_new_sources_keys(n: NodeSpec, ck: CompilerKind, facts: Seq<FactsSpec>, k: int, x: Seq<char>)
    requires
        0 <= k <= facts.len(),
        facts.len() == n.sources.len(),
    ensures
        lookup(new_sources(n, ck, facts, k), x) is Some <==> exists|i: int| 0 <= i < k && n.sources[i] == x,
    decreases k,
{
    if k > 0 {
        lemma_new_sources_keys(n, ck, facts, k - 1, x);
        lemma_lookup_put(new_sources(n, ck, facts, k - 1), n.sources[k - 1], source_fp(n, ck, facts[k - 1]), x);
        if lookup(new_sources(n, ck, facts, k), x) is Some && n.sources[k - 1] != x {
            let i = choose|i: int| 0 <= i < k - 1 && n.sources[i] == x;
            assert(0 <= i < k && n.sources[i] == x);
        }
        if exists|i: int| 0 <= i < k && n.sources[i] == x {
            let i = choose|i: int| 0 <= i < k && n.sources[i] == x;
            if i < k - 1 {
                assert(exists|j: int| 0 <= j < k - 1 && n.sources[j] == x);
            }
        }
    } else {
        assert(new_sources(n, ck, facts, 0) =~= seq![]);
    }
}

/// What recording a successful build of a target leaves in the cache: for
/// that target, a record whose target fingerprint covers its current
/// settings and dependency outputs and whose source fingerprints are kept
/// under exactly the paths of its sources; every other target's record as
/// it was. (A failed build leaves the whole cache as it was: see
/// `record_build`.)
pub proof fn lemma_recorded_build(
    c: Seq<(Seq<char>, TargetCacheSpec)>,
    name: Seq<char>,
    n: NodeSpec,
    ck: CompilerKind,
    prev: TargetCacheSpec,
    dep_digests: Seq<Option<Seq<u8>>>,
    facts: Seq<FactsSpec>,
    output_exists: bool,
    link_hash: Seq<char>,
    other: Seq<char>,
)
    requires
        facts.len() == n.sources.len(),
    ensures
        ({
            let e = TargetCacheSpec {
                link_hash,
                ..spec_plan(n, ck, prev, dep_digests, facts, output_exists).entry
            };
            let c2 = put_named(c, name, e);
            &&& lookup(c2, name) == Some(e)
            &&& e.target_hash == fingerprint(meta_input(n, dep_digests))
            &&& (forall|x: Seq<char>| #[trigger] lookup(e.sources, x) is Some <==> n.sources.contains(x))
            &&& other != name ==> lookup(c2, other) == lookup(c, other)
        }),
{
    let e = TargetCacheSpec { link_hash, ..spec_plan(n, ck, prev, dep_digests, facts, output_exists).entry };
    lemma_lookup_put(c, name, e, name);
    lemma_lookup_put(c, name, e, other);
    assert forall|x: Seq<char>| #[trigger] lookup(e.sources, x) is Some <==> n.sources.contains(x) by {
        lemma_new_sources_keys(n, ck, facts, facts.len() as int, x);
    }
}

} // verus!

verus! {

// ---------- what a plan depends on ----------

proof fn lemma_compile_list_members(n: NodeSpec, ck: CompilerKind, old: TargetCacheSpec, facts: Seq<FactsSpec>, k: int)
    requires
        0 <= k <= facts.len(),
        facts.len() <= usize::MAX,
    ensures
        forall|i: int|
            0 <= i < k ==> (compile_list(n, ck, old, facts, k).contains(i as usize) <==> needs_compile(
                old,
                n.sources[i],
                source_fp(n, ck, facts[i]),
                facts[i],
            )),
        forall|a: int, b: int|
            0 <= a < b < compile_list(n, ck, old, facts, k).len() ==> compile_list(n, ck, old, facts, k)[a]
                < compile_list(n, ck, old, facts, k)[b],
        forall|a: int| 0 <= a < compile_list(n, ck, old, facts, k).len() ==> compile_list(n, ck, old, facts, k)[a] < k,
    decreases k,
{
    if k > 0 {
        lemma_compile_list_members(n, ck, old, facts, k - 1);
        let prev = compile_list(n, ck, old, facts, k - 1);
        let cur = compile_list(n, ck, old, facts, k);
        assert forall|i: int| 0 <= i < k implies (cur.contains(i as usize) <==> needs_compile(
            old,
            n.sources[i],
            source_fp(n, ck, facts[i]),
            facts[i],
        )) by {
            if cur.contains(i as usize) {
                let q = choose|q: int| 0 <= q < cur.len() && cur[q] == i as usize;
                if q < prev.len() {
                    assert(cur[q] == prev[q]);
                    assert(prev.contains(i as usize));
                }
            }
            if i < k - 1 && prev.contains(i as usize) {
                let q = choose|q: int| 0 <= q < prev.len() && prev[q] == i as usize;
                assert(cur[q] == prev[q]);
            }
            if i == k - 1 && needs_compile(old, n.sources[i], source_fp(n, ck, facts[i]), facts[i]) {
                assert(cur[prev.len() as int] == (k - 1) as usize);
            }
            if i == k - 1 && prev.contains(i as usize) {
                let q = choose|q: int| 0 <= q < prev.len() && prev[q] == i as usize;
                assert(prev[q] < k - 1);
            }
        }
        assert forall|a: int, b: int| 0 <= a < b < cur.len() implies cur[a] < cur[b] by {
            if b < prev.len() {
                assert(cur[a] == prev[a] && cur[b] == prev[b]);
            } else {
                assert(cur[a] == prev[a]);
                assert(prev[a] < k - 1);
                assert(cur[b] == (k - 1) as usize);
            }
        }
        assert forall|a: int| 0 <= a < cur.len() implies cur[a] < k by {
            if a < prev.len() {
                assert(cur[a] == prev[a]);
            }
        }
    }
}

/// What a plan decides, in terms of its inputs: a source is compiled
/// exactly when its object or dependency file is missing or its
/// fingerprint is not the one recorded under its path, the sources to
/// compile come in order, each once; and the target is up to date exactly
/// when nothing is compiled, the recorded target fingerprint is the
/// fingerprint of its current settings and dependency outputs, and its
/// output exists. (So a target whose dependency output or flags changed
/// since the recorded run is never reported up to date, and goes on to be
/// linked.)
pub proof fn lemma_plan_decisions(
    n: NodeSpec,
    ck: CompilerKind,
    old: TargetCacheSpec,
    dep_digests: Seq<Option<Seq<u8>>>,
    facts: Seq<FactsSpec>,
    output_exists: bool,
)
    requires
        facts.len() == n.sources.len(),
        facts.len() <= usize::MAX,
    ensures
        ({
            let p = spec_plan(n, ck, old, dep_digests, facts, output_exists);
            &&& forall|i: int|
                0 <= i < facts.len() ==> (p.to_compile.contains(i as usize) <==> (!facts[i].obj_exists
                    || !facts[i].depfile_exists || lookup(old.sources, n.sources[i]) != Some(
                    fingerprint(source_input(n, ck, facts[i])),
                )))
            &&& forall|a: int, b: int| 0 <= a < b < p.to_compile.len() ==> p.to_compile[a] < p.to_compile[b]
            &&& forall|a: int| 0 <= a < p.to_compile.len() ==> p.to_compile[a] < facts.len()
            &&& p.up_to_date <==> (p.to_compile.len() == 0 && old.target_hash == fingerprint(
                meta_input(n, dep_digests),
            ) && output_exists)
            &&& p.entry.target_hash == fingerprint(meta_input(n, dep_digests))
        }),
{
    lemma_compile_list_members(n, ck, old, facts, facts.len() as int);
}

proof fn lemma_digests_or_append(a: Seq<Option<Seq<u8>>>, b: Seq<Option<Seq<u8>>>, missing: Seq<u8>)
    ensures
        digests_or(a + b, missing) == digests_or(a, missing) + digests_or(b, missing),
    decreases b.len(),
{
    if b.len() == 0 {
        assert(a + b =~= a);
        assert(digests_or(a, missing) + digests_or(b, missing) =~= digests_or(a, missing));
    } else {
        lemma_digests_or_append(a, b.drop_last(), missing);
        assert((a + b).drop_last() =~= a + b.drop_last());
        assert((a + b).last() == b.last());
        assert(digests_or(a + b, missing) =~= digests_or(a, missing) + digests_or(b, missing));
    }
}

proof fn lemma_digests_or_split(d: Seq<Option<Seq<u8>>>, k: int, missing: Seq<u8>)
    requires
        0 <= k < d.len(),
        d[k] is Some,
    ensures
        digests_or(d, missing) == digests_or(d.take(k), missing) + (d[k]->0) + digests_or(d.skip(k + 1), missing),
{
    let pre = d.take(k);
    let one = seq![d[k]];
    let post = d.skip(k + 1);
    assert(d =~= pre + one + post);
    lemma_digests_or_append(pre + one, post, missing);
    lemma_digests_or_append(pre, one, missing);
    assert(one.drop_last() =~= Seq::<Option<Seq<u8>>>::empty());
    assert(digests_or(one.drop_last(), missing) =~= Seq::<u8>::empty());
    assert(one.last() == d[k]);
    assert(digests_or(one, missing) == digests_or(one.drop_last(), missing) + (d[k]->0));
    assert(digests_or(one, missing) =~= d[k]->0);
}

/// A target's fingerprint covers each dependency's output: two lists of
/// dependency digests that differ only at one dependency, where both
/// outputs exist and their digests differ, give different fingerprint
/// inputs.
pub proof fn lemma_meta_input_covers_dependency(
    n: NodeSpec,
    d1: Seq<Option<Seq<u8>>>,
    d2: Seq<Option<Seq<u8>>>,
    k: int,
)
    requires
        d1.len() == d2.len(),
        0 <= k < d1.len(),
        forall|j: int| 0 <= j < d1.len() && j != k ==> d1[j] == d2[j],
        d1[k] is Some && d2[k] is Some,
        (d1[k]->0).len() == (d2[k]->0).len(),
        d1[k]->0 != d2[k]->0,
    ensures
        meta_input(n, d1) != meta_input(n, d2),
{
    let m = encode_utf8("missing-dep-output"@);
    let x = d1[k]->0;
    let y = d2[k]->0;
    lemma_digests_or_split(d1, k, m);
    lemma_digests_or_split(d2, k, m);
    assert(d1.take(k) =~= d2.take(k));
    assert(d1.skip(k + 1) =~= d2.skip(k + 1));
    let head = encode_utf8(target_kind_text(n.kind)) + encode_utf8(language_text(n.language));
    let p = digests_or(d1.take(k), m);
    assert(exists|j: int| 0 <= j < x.len() && x[j] != y[j]) by {
        if forall|j: int| 0 <= j < x.len() ==> x[j] == y[j] {
            assert(x =~= y);
        }
    }
    let j = choose|j: int| 0 <= j < x.len() && x[j] != y[j];
    let o = head.len() + p.len() + j;
    let a = digests_or(d1, m);
    let b = digests_or(d2, m);
    assert(a == p + x + digests_or(d1.skip(k + 1), m));
    assert(b == p + y + digests_or(d1.skip(k + 1), m));
    assert((p + x)[p.len() + j] == x[j]);
    assert((p + y)[p.len() + j] == y[j]);
    assert(a[p.len() + j] == x[j]);
    assert(b[p.len() + j] == y[j]);
    assert(meta_input(n, d1)[o] == a[p.len() + j]);
    assert(meta_input(n, d2)[o] == b[p.len() + j]);
}

} // verus!
