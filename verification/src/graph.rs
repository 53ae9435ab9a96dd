//! The target graph: targets resolved from a configuration, their
//! dependencies, a build order, and which targets may run next.

use vstd::prelude::*;
use crate::text::{clone_strings, concat3, lemma_push_deep_view, push_str, string_of};
use crate::config::{BuildConfig, Language, TargetConfig, TargetKind, TargetSpec, config_valid, names_distinct};

verus! {

/// A target of the graph, with its sources found.
#[derive(Debug)]
pub struct TargetNode {
    pub name: String,
    pub kind: TargetKind,
    pub language: Language,
    pub sources: Vec<String>,
    pub deps: Vec<String>,
    pub output: String,
    pub cflags: Vec<String>,
    pub cppflags: Vec<String>,
    pub ldflags: Vec<String>,
}

/// The mathematical content of a [`TargetNode`].
pub struct NodeSpec {
    pub name: Seq<char>,
    pub kind: TargetKind,
    pub language: Language,
    pub sources: Seq<Seq<char>>,
    pub deps: Seq<Seq<char>>,
    pub output: Seq<char>,
    pub cflags: Seq<Seq<char>>,
    pub cppflags: Seq<Seq<char>>,
    pub ldflags: Seq<Seq<char>>,
}

impl View for TargetNode {
    type V = NodeSpec;

    open spec fn view(&self) -> NodeSpec {
        NodeSpec {
            name: self.name@,
            kind: self.kind,
            language: self.language,
            sources: self.sources.deep_view(),
            deps: self.deps.deep_view(),
            output: self.output@,
            cflags: self.cflags.deep_view(),
            cppflags: self.cppflags.deep_view(),
            ldflags: self.ldflags.deep_view(),
        }
    }
}

/// The nodes of a list of targets.
pub open spec fn nodes_view(ts: Seq<TargetNode>) -> Seq<NodeSpec> {
    Seq::new(ts.len(), |i: int| ts[i]@)
}

/// Some target is named `x`.
pub open spec fn has_target(g: Seq<NodeSpec>, x: Seq<char>) -> bool {
    exists|i: int| 0 <= i < g.len() && (#[trigger] g[i]).name == x
}

/// Target names are distinct and every dependency names a target.
pub open spec fn graph_valid(g: Seq<NodeSpec>) -> bool {
    &&& forall|i: int, j: int|
        0 <= i < g.len() && 0 <= j < g.len() && i != j ==> #[trigger] g[i].name != #[trigger] g[j].name
    &&& forall|i: int, k: int|
        0 <= i < g.len() && 0 <= k < g[i].deps.len() ==> has_target(g, #[trigger] g[i].deps[k])
}

/// How many times `x` occurs in `s`.
pub open spec fn occ(s: Seq<usize>, x: usize) -> nat
    decreases s.len(),
{
    if s.len() == 0 {
        0
    } else {
        occ(s.drop_last(), x) + if s.last() == x {
            1nat
        } else {
            0nat
        }
    }
}

/// The dependency graph of a build. Each dependency is resolved to the
/// index of the target it names, and each target knows its dependents.
#[derive(Debug)]
pub struct BuildGraph {
    targets: Vec<TargetNode>,
    dep_ids: Vec<Vec<usize>>,
    reverse_deps: Vec<Vec<usize>>,
}

impl BuildGraph {
    #[verifier::type_invariant]
    closed spec fn inv(self) -> bool {
        let n = self.targets.len();
        &&& self.dep_ids.len() == n
        &&& self.reverse_deps.len() == n
        &&& graph_valid(nodes_view(self.targets@))
        &&& forall|i: int| 0 <= i < n ==> (#[trigger] self.dep_ids@[i]).len() == self.targets@[i].deps.len()
        &&& forall|i: int, k: int|
            0 <= i < n && 0 <= k < self.dep_ids@[i].len() ==> {
                &&& (#[trigger] self.dep_ids@[i]@[k]) < n
                &&& self.targets@[self.dep_ids@[i]@[k] as int].name@ == self.targets@[i].deps@[k]@
            }
        &&& forall|m: int, k: int|
            0 <= m < n && 0 <= k < self.reverse_deps@[m].len() ==> (#[trigger] self.reverse_deps@[m]@[k]) < n
        &&& forall|m: int, c: int|
            0 <= m < n && 0 <= c < n ==> occ(#[trigger] self.reverse_deps@[m]@, c as usize) == occ(
                #[trigger] self.dep_ids@[c]@,
                m as usize,
            )
    }

    /// The targets of the graph.
    pub closed spec fn spec_nodes(&self) -> Seq<NodeSpec> {
        nodes_view(self.targets@)
    }

    /// For each target, the index of the target each of its dependencies
    /// names.
    pub closed spec fn dep_index(&self) -> Seq<Seq<usize>> {
        Seq::new(self.dep_ids@.len(), |i: int| self.dep_ids@[i]@)
    }

    /// For each target, the indices of the targets that depend on it.
    pub closed spec fn dependents(&self) -> Seq<Seq<usize>> {
        Seq::new(self.reverse_deps@.len(), |i: int| self.reverse_deps@[i]@)
    }
}

/// `ids[i][k]` is the index of the target that the `k`-th dependency of
/// target `i` names, and `rev[m]` lists each target that depends on `m`,
/// as many times as it lists `m` among its dependencies.
pub open spec fn links_valid(g: Seq<NodeSpec>, ids: Seq<Seq<usize>>, rev: Seq<Seq<usize>>) -> bool {
    &&& ids.len() == g.len()
    &&& rev.len() == g.len()
    &&& forall|i: int| 0 <= i < g.len() ==> (#[trigger] ids[i]).len() == g[i].deps.len()
    &&& forall|i: int, k: int|
        0 <= i < g.len() && 0 <= k < ids[i].len() ==> {
            &&& (#[trigger] ids[i][k]) < g.len()
            &&& g[ids[i][k] as int].name == g[i].deps[k]
        }
    &&& forall|m: int, k: int| 0 <= m < g.len() && 0 <= k < rev[m].len() ==> (#[trigger] rev[m][k]) < g.len()
    &&& forall|m: int, c: int|
        0 <= m < g.len() && 0 <= c < g.len() ==> occ(#[trigger] rev[m], c as usize) == occ(#[trigger] ids[c], m as usize)
}


impl View for BuildGraph {
    type V = Seq<NodeSpec>;

    open spec fn view(&self) -> Seq<NodeSpec> {
        self.spec_nodes()
    }
}

} // verus!

verus! {

/// How one listed source of a target resolved on disk.
#[derive(Debug)]
pub enum SourceEntry {
    /// Not a directory: the entry is a source file itself.
    File,
    /// A directory: the source files found under it.
    Directory(Vec<String>),
}

/// The mathematical content of a [`SourceEntry`].
pub enum SourceEntrySpec {
    File,
    Directory(Seq<Seq<char>>),
}

impl View for SourceEntry {
    type V = SourceEntrySpec;

    open spec fn view(&self) -> SourceEntrySpec {
        match self {
            SourceEntry::File => SourceEntrySpec::File,
            SourceEntry::Directory(fs) => SourceEntrySpec::Directory(fs.deep_view()),
        }
    }
}

pub open spec fn entries_view(d: Seq<SourceEntry>) -> Seq<SourceEntrySpec> {
    Seq::new(d.len(), |i: int| d[i]@)
}

/// The source files of a target: each listed source that is a file, and
/// in place of each directory the files found under it.
pub open spec fn expand_sources(srcs: Seq<Seq<char>>, found: Seq<SourceEntrySpec>) -> Seq<Seq<char>>
    decreases srcs.len(),
{
    if srcs.len() == 0 {
        seq![]
    } else {
        expand_sources(srcs.drop_last(), found) + match found[srcs.len() - 1] {
            SourceEntrySpec::File => seq![srcs.last()],
            SourceEntrySpec::Directory(fs) => fs,
        }
    }
}

/// Why a graph could not be built or ordered.
#[derive(Debug)]
pub enum GraphError {
    NoSources { target: String },
    MissingDependency { target: String, dep: String },
    CyclicDependency,
}

pub enum GraphErrorSpec {
    NoSources { target: Seq<char> },
    MissingDependency { target: Seq<char>, dep: Seq<char> },
    CyclicDependency,
}

impl View for GraphError {
    type V = GraphErrorSpec;

    open spec fn view(&self) -> GraphErrorSpec {
        match self {
            GraphError::NoSources { target } => GraphErrorSpec::NoSources { target: target@ },
            GraphError::MissingDependency { target, dep } => GraphErrorSpec::MissingDependency {
                target: target@,
                dep: dep@,
            },
            GraphError::CyclicDependency => GraphErrorSpec::CyclicDependency,
        }
    }
}

/// The message that reports a graph error.
pub open spec fn graph_error_text(e: GraphErrorSpec) -> Seq<char> {
    match e {
        GraphErrorSpec::NoSources { target } => "target `"@ + target + "` has no sources after discovery"@,
        GraphErrorSpec::MissingDependency { target, dep } => "target `"@ + target + "` depends on nonexistent target `"@
            + dep + "`"@,
        GraphErrorSpec::CyclicDependency => "Cyclic dependency detected!"@,
    }
}

impl GraphError {
    /// The message that reports this error.
    pub fn message(&self) -> (r: String)
        ensures
            r@ == graph_error_text(self@),
    {
        match self {
            GraphError::NoSources { target } => concat3("target `", target.as_str(), "` has no sources after discovery"),
            GraphError::MissingDependency { target, dep } => {
                let mut s = concat3("target `", target.as_str(), "` depends on nonexistent target `");
                push_str(&mut s, dep.as_str());
                push_str(&mut s, "`");
                s
            },
            GraphError::CyclicDependency => string_of("Cyclic dependency detected!"),
        }
    }
}

/// The node a configured target becomes, with its sources found.
pub open spec fn node_of(name: Seq<char>, t: TargetSpec, sources: Seq<Seq<char>>) -> NodeSpec {
    NodeSpec {
        name,
        kind: t.kind,
        language: t.language,
        sources,
        deps: t.deps,
        output: t.output,
        cflags: t.cflags,
        cppflags: t.cppflags,
        ldflags: t.ldflags,
    }
}

/// Some target of a configuration is named `x`.
pub open spec fn config_has(c: Seq<(Seq<char>, TargetSpec)>, x: Seq<char>) -> bool {
    exists|j: int| 0 <= j < c.len() && (#[trigger] c[j]).0 == x
}

fn expand_exec(srcs: &Vec<String>, found: &Vec<SourceEntry>) -> (r: Vec<String>)
    requires
        found.len() == srcs.len(),
    ensures
        r.deep_view() == expand_sources(srcs.deep_view(), entries_view(found@)),
{
    let ghost sv = srcs.deep_view();
    let ghost fv = entries_view(found@);
    let mut out: Vec<String> = Vec::new();
    let mut i: usize = 0;
    assert(out.deep_view() =~= expand_sources(sv.take(0), fv));
    while i < srcs.len()
        invariant
            i <= srcs.len(),
            found.len() == srcs.len(),
            sv == srcs.deep_view(),
            fv == entries_view(found@),
            out.deep_view() == expand_sources(sv.take(i as int), fv),
        decreases srcs.len() - i,
    {
        let ghost before = out.deep_view();
        assert(sv.take(i + 1).drop_last() =~= sv.take(i as int));
        match &found[i] {
            SourceEntry::File => {
                let s = srcs[i].clone();
                out.push(s);
                proof {
                    lemma_push_deep_view(before, out@, s);
                }
                assert(out.deep_view() =~= before + seq![sv[i as int]]);
            },
            SourceEntry::Directory(fs) => {
                let mut j: usize = 0;
                while j < fs.len()
                    invariant
                        j <= fs.len(),
                        out.deep_view() == before + fs.deep_view().take(j as int),
                    decreases fs.len() - j,
                {
                    let ghost mid = out.deep_view();
                    let s = fs[j].clone();
                    out.push(s);
                    proof {
                        lemma_push_deep_view(mid, out@, s);
                        assert(s@ == fs.deep_view()[j as int]);
                        assert(fs.deep_view().take(j + 1) =~= fs.deep_view().take(j as int).push(s@));
                    }
                    assert(out.deep_view() =~= before + fs.deep_view().take(j + 1));
                    j = j + 1;
                }
                assert(fs.deep_view().take(j as int) =~= fs.deep_view());
            },
        }
        i = i + 1;
    }
    assert(sv.take(i as int) =~= sv);
    out
}

} // verus!

verus! {

pub proof fn lemma_occ_push(s: Seq<usize>, x: usize, y: usize)
    ensures
        occ(s.push(x), y) == occ(s, y) + if x == y {
            1nat
        } else {
            0nat
        },
{
    assert(s.push(x).drop_last() =~= s);
}

pub proof fn lemma_occ_take(s: Seq<usize>, j: int, y: usize)
    requires
        0 <= j < s.len(),
    ensures
        occ(s.take(j + 1), y) == occ(s.take(j), y) + if s[j] == y {
            1nat
        } else {
            0nat
        },
{
    assert(s.take(j + 1).drop_last() =~= s.take(j));
}

/// The sources of every configured target, found.
pub open spec fn found_view(found: Seq<Vec<SourceEntry>>) -> Seq<Seq<SourceEntrySpec>> {
    Seq::new(found.len(), |i: int| entries_view(found[i]@))
}

/// The nodes a configuration gives, once its sources are found.
pub open spec fn graph_of(c: Seq<(Seq<char>, TargetSpec)>, fv: Seq<Seq<SourceEntrySpec>>) -> Seq<NodeSpec> {
    Seq::new(c.len(), |i: int| node_of(c[i].0, c[i].1, expand_sources(c[i].1.sources, fv[i])))
}

fn find_target(targets: &Vec<TargetNode>, name: &String) -> (r: Option<usize>)
    ensures
        match r {
            Some(j) => j < targets.len() && targets@[j as int].name@ == name@,
            None => forall|j: int| 0 <= j < targets.len() ==> (#[trigger] targets@[j]).name@ != name@,
        },
{
    let mut j: usize = 0;
    while j < targets.len()
        invariant
            j <= targets.len(),
            forall|q: int| 0 <= q < j ==> (#[trigger] targets@[q]).name@ != name@,
        decreases targets.len() - j,
    {
        if targets[j].name == *name {
            return Some(j);
        }
        j = j + 1;
    }
    None
}

impl BuildGraph {
    /// Resolves a configuration into a graph. `found[i][k]` says how the
    /// `k`-th listed source of the `i`-th target resolved on disk.
    ///
    /// Refused when a target has no sources once they are found, or
    /// depends on a target that does not exist. Where several targets are
    /// at fault, which of them is reported is not fixed.
    pub fn from_config(cfg: &BuildConfig, found: &Vec<Vec<SourceEntry>>) -> (r: Result<BuildGraph, GraphError>)
        requires
            names_distinct(cfg@),
            found.len() == cfg.targets.len(),
            forall|i: int| 0 <= i < found.len() ==> (#[trigger] found@[i]).len() == cfg.targets@[i].1.sources.len(),
        ensures
            match r {
                Ok(g) => g@ == graph_of(cfg@, found_view(found@)),
                Err(GraphError::NoSources { target }) => exists|i: int|
                    0 <= i < cfg@.len() && (#[trigger] graph_of(cfg@, found_view(found@))[i]).sources.len() == 0
                        && cfg@[i].0 == target@,
                Err(GraphError::MissingDependency { target, dep }) => {
                    &&& forall|i: int| 0 <= i < cfg@.len() ==> (#[trigger] graph_of(cfg@, found_view(found@))[i]).sources.len() > 0
                    &&& exists|i: int, k: int|
                        0 <= i < cfg@.len() && 0 <= k < cfg@[i].1.deps.len() && cfg@[i].0 == target@
                            && #[trigger] cfg@[i].1.deps[k] == dep@ && !config_has(cfg@, dep@)
                },
                Err(GraphError::CyclicDependency) => false,
            },
            r matches Ok(g) ==> forall|i: int|
                0 <= i < cfg@.len() ==> (#[trigger] graph_of(cfg@, found_view(found@))[i]).sources.len() > 0,
            r matches Ok(g) ==> links_valid(g@, g.dep_index(), g.dependents()),
            (forall|i: int| 0 <= i < cfg@.len() ==> (#[trigger] graph_of(cfg@, found_view(found@))[i]).sources.len() > 0)
                && (forall|i: int, k: int| 0 <= i < cfg@.len() && 0 <= k < cfg@[i].1.deps.len() ==> config_has(cfg@, #[trigger] cfg@[i].1.deps[k]))
                ==> r is Ok,
    {
        let ghost gv = graph_of(cfg@, found_view(found@));
        let n = cfg.targets.len();
        // The targets, with their sources found.
        let mut targets: Vec<TargetNode> = Vec::new();
        let mut i: usize = 0;
        while i < n
            invariant
                i <= n,
                n == cfg.targets.len(),
                found.len() == n,
                forall|q: int| 0 <= q < found.len() ==> (#[trigger] found@[q]).len() == cfg.targets@[q].1.sources.len(),
                gv == graph_of(cfg@, found_view(found@)),
                nodes_view(targets@) == gv.take(i as int),
                targets.len() == i,
                gv.len() == n,
                forall|q: int| 0 <= q < i ==> (#[trigger] gv[q]).sources.len() > 0,
            decreases n - i,
        {
            let name = &cfg.targets[i].0;
            let t = &cfg.targets[i].1;
            let srcs = expand_exec(&t.sources, &found[i]);
            assert(entries_view(found@[i as int]@) == found_view(found@)[i as int]);
            assert(cfg@[i as int].1 == t@);
            assert(gv[i as int].sources == srcs.deep_view());
            if srcs.len() == 0 {
                return Err(GraphError::NoSources { target: name.clone() });
            }
            let node = TargetNode {
                name: name.clone(),
                kind: t.kind,
                language: t.language,
                sources: srcs,
                deps: clone_strings(&t.deps),
                output: t.output.clone(),
                cflags: clone_strings(&t.cflags),
                cppflags: clone_strings(&t.cppflags),
                ldflags: clone_strings(&t.ldflags),
            };
            let ghost before = targets@;
            let ghost nv = node@;
            assert(nv == gv[i as int]);
            targets.push(node);
            assert(nodes_view(targets@) =~= gv.take(i + 1)) by {
                assert forall|q: int| 0 <= q < i + 1 implies #[trigger] nodes_view(targets@)[q] == gv.take(i + 1)[q] by {
                    if q < i {
                        assert(targets@[q] == before[q]);
                        assert(nodes_view(before)[q] == gv.take(i as int)[q]);
                    }
                }
            }
            i = i + 1;
        }
        assert(gv.take(n as int) =~= gv);
        assert(nodes_view(targets@) == gv);
        // Each dependency, resolved to the index of the target it names.
        let mut dep_ids: Vec<Vec<usize>> = Vec::new();
        let mut i: usize = 0;
        while i < n
            invariant
                i <= n,
                n == cfg.targets.len(),
                targets.len() == n,
                nodes_view(targets@) == gv,
                gv == graph_of(cfg@, found_view(found@)),
                forall|q: int| 0 <= q < n ==> (#[trigger] gv[q]).sources.len() > 0,
                dep_ids.len() == i,
                forall|q: int| 0 <= q < i ==> (#[trigger] dep_ids@[q]).len() == targets@[q].deps.len(),
                forall|q: int, k: int|
                    0 <= q < i && 0 <= k < dep_ids@[q].len() ==> {
                        &&& (#[trigger] dep_ids@[q]@[k]) < n
                        &&& targets@[dep_ids@[q]@[k] as int].name@ == targets@[q].deps@[k]@
                    },
            decreases n - i,
        {
            let deps = &targets[i].deps;
            let mut ids: Vec<usize> = Vec::new();
            let mut k: usize = 0;
            while k < deps.len()
                invariant
                    i < n,
                    n == cfg.targets.len(),
                    targets.len() == n,
                    deps == targets@[i as int].deps,
                    nodes_view(targets@) == gv,
                    gv == graph_of(cfg@, found_view(found@)),
                    forall|q: int| 0 <= q < n ==> (#[trigger] gv[q]).sources.len() > 0,
                    k <= deps.len(),
                    ids.len() == k,
                    forall|p: int| 0 <= p < k ==> {
                        &&& (#[trigger] ids@[p]) < n
                        &&& targets@[ids@[p] as int].name@ == deps@[p]@
                    },
                decreases deps.len() - k,
            {
                match find_target(&targets, &deps[k]) {
                    Some(j) => {
                        ids.push(j);
                    },
                    None => {
                        proof {
                            assert(gv[i as int] == targets@[i as int]@);
                            assert(deps.deep_view()[k as int] == deps@[k as int]@);
                            assert(cfg@[i as int].1.deps[k as int] == deps@[k as int]@);
                            assert(!config_has(cfg@, deps@[k as int]@)) by {
                                if config_has(cfg@, deps@[k as int]@) {
                                    let j = choose|j: int| 0 <= j < cfg@.len() && (#[trigger] cfg@[j]).0 == deps@[k as int]@;
                                    assert(gv[j].name == targets@[j]@.name);
                                }
                            }
                        }
                        return Err(GraphError::MissingDependency {
                            target: targets[i].name.clone(),
                            dep: deps[k].clone(),
                        });
                    },
                }
                k = k + 1;
            }
            let ghost before = dep_ids@;
            dep_ids.push(ids);
            assert forall|q: int, k2: int| 0 <= q < i + 1 && 0 <= k2 < dep_ids@[q].len() implies {
                &&& (#[trigger] dep_ids@[q]@[k2]) < n
                &&& targets@[dep_ids@[q]@[k2] as int].name@ == targets@[q].deps@[k2]@
            } by {
                if q < i {
                    assert(dep_ids@[q] == before[q]);
                }
            }
            i = i + 1;
        }
        let reverse_deps = reverse_of(&dep_ids, n);
        assert(graph_valid(gv)) by {
            assert forall|q: int, k: int| 0 <= q < gv.len() && 0 <= k < gv[q].deps.len() implies has_target(
                gv,
                #[trigger] gv[q].deps[k],
            ) by {
                let j = dep_ids@[q]@[k] as int;
                assert(gv[j].name == targets@[j].name@);
            }
        }
        let g = BuildGraph { targets, dep_ids, reverse_deps };
        proof {
            use_type_invariant(&g);
            let gg = g@;
            let ids = g.dep_index();
            assert forall|i: int, k: int| 0 <= i < gg.len() && 0 <= k < ids[i].len() implies {
                &&& (#[trigger] ids[i][k]) < gg.len()
                &&& gg[ids[i][k] as int].name == gg[i].deps[k]
            } by {
                assert(ids[i][k] == g.dep_ids@[i]@[k]);
                assert(gg[i].deps[k] == g.targets@[i].deps@[k]@);
            }
            assert forall|i: int| 0 <= i < gg.len() implies (#[trigger] ids[i]).len() == gg[i].deps.len() by {
                assert(ids[i] == g.dep_ids@[i]@);
            }
            assert forall|m: int, c: int| 0 <= m < gg.len() && 0 <= c < gg.len() implies occ(
                #[trigger] g.dependents()[m],
                c as usize,
            ) == occ(#[trigger] ids[c], m as usize) by {
                assert(g.dependents()[m] == g.reverse_deps@[m]@);
                assert(ids[c] == g.dep_ids@[c]@);
            }
            assert forall|m: int, k: int| 0 <= m < gg.len() && 0 <= k < g.dependents()[m].len() implies (
            #[trigger] g.dependents()[m][k]) < gg.len() by {
                assert(g.dependents()[m] == g.reverse_deps@[m]@);
            }
        }
        Ok(g)
    }
}

/// For each target `m`, the targets that depend on it, each as many times
/// as it lists `m`.
fn reverse_of(dep_ids: &Vec<Vec<usize>>, n: usize) -> (r: Vec<Vec<usize>>)
    requires
        dep_ids.len() == n,
        forall|c: int, k: int| 0 <= c < n && 0 <= k < dep_ids@[c].len() ==> (#[trigger] dep_ids@[c]@[k]) < n,
    ensures
        r.len() == n,
        forall|m: int, k: int| 0 <= m < n && 0 <= k < r@[m].len() ==> (#[trigger] r@[m]@[k]) < n,
        forall|m: int, c: int| 0 <= m < n && 0 <= c < n ==> occ(#[trigger] r@[m]@, c as usize) == occ(
            #[trigger] dep_ids@[c]@,
            m as usize,
        ),
{
    let mut rev: Vec<Vec<usize>> = Vec::new();
    let mut m: usize = 0;
    while m < n
        invariant
            m <= n,
            dep_ids.len() == n,
            forall|c: int, k: int| 0 <= c < n && 0 <= k < dep_ids@[c].len() ==> (#[trigger] dep_ids@[c]@[k]) < n,
            rev.len() == m,
            forall|m2: int, k: int| 0 <= m2 < m && 0 <= k < rev@[m2].len() ==> (#[trigger] rev@[m2]@[k]) < n,
            forall|m2: int, c: int| 0 <= m2 < m && 0 <= c < n ==> occ(#[trigger] rev@[m2]@, c as usize) == occ(
                #[trigger] dep_ids@[c]@,
                m2 as usize,
            ),
        decreases n - m,
    {
        let mut lst: Vec<usize> = Vec::new();
        let mut c: usize = 0;
        while c < n
            invariant
                m < n,
                c <= n,
                dep_ids.len() == n,
                forall|k: int| 0 <= k < lst.len() ==> (#[trigger] lst@[k]) < c,
                forall|x: int| 0 <= x < n ==> #[trigger] occ(lst@, x as usize) == if x < c {
                    occ(dep_ids@[x]@, m)
                } else {
                    0
                },
            decreases n - c,
        {
            let ds = &dep_ids[c];
            let mut k: usize = 0;
            while k < ds.len()
                invariant
                    m < n,
                    c < n,
                    ds == dep_ids@[c as int],
                    k <= ds.len(),
                    forall|q: int| 0 <= q < lst.len() ==> (#[trigger] lst@[q]) <= c,
                    forall|x: int| 0 <= x < n ==> #[trigger] occ(lst@, x as usize) == if x < c {
                        occ(dep_ids@[x]@, m)
                    } else if x == c {
                        occ(ds@.take(k as int), m)
                    } else {
                        0
                    },
                decreases ds.len() - k,
            {
                let ghost before = lst@;
                proof {
                    lemma_occ_take(ds@, k as int, m);
                }
                if ds[k] == m {
                    lst.push(c);
                    proof {
                        assert forall|x: int| 0 <= x < n implies #[trigger] occ(lst@, x as usize) == if x < c {
                            occ(dep_ids@[x]@, m)
                        } else if x == c {
                            occ(ds@.take(k + 1), m)
                        } else {
                            0
                        } by {
                            lemma_occ_push(before, c, x as usize);
                        }
                    }
                }
                k = k + 1;
            }
            assert(ds@.take(ds@.len() as int) =~= ds@);
            c = c + 1;
        }
        rev.push(lst);
        m = m + 1;
    }
    rev
}

} // verus!

verus! {

// ---------- build order ----------

/// `x` occurs in `o` before position `p`.
pub open spec fn placed_before(o: Seq<Seq<char>>, p: int, x: Seq<char>) -> bool {
    exists|q: int| 0 <= q < p && o[q] == x
}

/// `o` is an order in which the targets of `g` can be built: each target
/// exactly once, and every dependency of a target before it.
pub open spec fn is_build_order(g: Seq<NodeSpec>, o: Seq<Seq<char>>) -> bool {
    &&& o.len() == g.len()
    &&& o.no_duplicates()
    &&& forall|p: int| 0 <= p < o.len() ==> has_target(g, #[trigger] o[p])
    &&& forall|i: int| 0 <= i < g.len() ==> o.contains(#[trigger] g[i].name)
    &&& forall|p: int, i: int, k: int|
        0 <= p < o.len() && 0 <= i < g.len() && g[i].name == o[p] && 0 <= k < g[i].deps.len()
            ==> #[trigger] placed_before(o, p, g[i].deps[k])
}

/// The number of entries of `ds` that are not done.
pub open spec fn undone(ds: Seq<usize>, done: Seq<bool>) -> nat
    decreases ds.len(),
{
    if ds.len() == 0 {
        0
    } else {
        undone(ds.drop_last(), done) + if !done[ds.last() as int] {
            1nat
        } else {
            0nat
        }
    }
}

pub proof fn lemma_undone_zero(ds: Seq<usize>, done: Seq<bool>)
    ensures
        undone(ds, done) == 0 <==> forall|k: int| 0 <= k < ds.len() ==> done[#[trigger] ds[k] as int],
    decreases ds.len(),
{
    if ds.len() > 0 {
        lemma_undone_zero(ds.drop_last(), done);
        if undone(ds, done) == 0 {
            assert forall|k: int| 0 <= k < ds.len() implies done[#[trigger] ds[k] as int] by {
                if k < ds.len() - 1 {
                    assert(ds.drop_last()[k] == ds[k]);
                }
            }
        } else {
            if forall|k: int| 0 <= k < ds.len() ==> done[#[trigger] ds[k] as int] {
                assert forall|k: int| 0 <= k < ds.drop_last().len() implies done[#[trigger] ds.drop_last()[k] as int] by {
                    assert(ds.drop_last()[k] == ds[k]);
                }
                assert(done[ds[ds.len() - 1] as int]);
            }
        }
    }
}

pub proof fn lemma_undone_all_false(ds: Seq<usize>, done: Seq<bool>)
    requires
        forall|k: int| 0 <= k < ds.len() ==> 0 <= #[trigger] ds[k] < done.len() && !done[ds[k] as int],
    ensures
        undone(ds, done) == ds.len(),
    decreases ds.len(),
{
    if ds.len() > 0 {
        assert forall|k: int| 0 <= k < ds.drop_last().len() implies 0 <= #[trigger] ds.drop_last()[k] < done.len() && !done[ds.drop_last()[k] as int] by {
            assert(ds.drop_last()[k] == ds[k]);
        }
        lemma_undone_all_false(ds.drop_last(), done);
    }
}

pub proof fn lemma_undone_mark(ds: Seq<usize>, done: Seq<bool>, m: usize)
    requires
        m < done.len(),
        !done[m as int],
        forall|k: int| 0 <= k < ds.len() ==> (#[trigger] ds[k]) < done.len(),
    ensures
        undone(ds, done.update(m as int, true)) + occ(ds, m) == undone(ds, done),
    decreases ds.len(),
{
    if ds.len() > 0 {
        assert forall|k: int| 0 <= k < ds.drop_last().len() implies (#[trigger] ds.drop_last()[k]) < done.len() by {
            assert(ds.drop_last()[k] == ds[k]);
        }
        assert(ds.last() == ds[ds.len() - 1]);
        lemma_undone_mark(ds.drop_last(), done, m);
    }
}

pub proof fn lemma_occ_prefix(s: Seq<usize>, j: int, x: usize)
    requires
        0 <= j <= s.len(),
    ensures
        occ(s.take(j), x) <= occ(s, x),
    decreases s.len() - j,
{
    if j < s.len() {
        lemma_occ_take(s, j, x);
        lemma_occ_prefix(s, j + 1, x);
    } else {
        assert(s.take(j) =~= s);
    }
}

/// A list of distinct indices below `n` is no longer than `n`, and it is
/// exactly `n` long when it holds every index below `n`.
pub proof fn lemma_distinct_below(s: Seq<usize>, n: usize)
    requires
        s.no_duplicates(),
        forall|k: int| 0 <= k < s.len() ==> (#[trigger] s[k]) < n,
    ensures
        s.len() <= n,
        s.len() == n <==> forall|x: usize| x < n ==> s.contains(x),
    decreases n,
{
    if n == 0 {
        if s.len() > 0 {
            assert(s[0] < 0);
        }
    } else {
        let top = (n - 1) as usize;
        let n1 = (n - 1) as usize;
        if s.contains(top) {
            let k = choose|k: int| 0 <= k < s.len() && s[k] == top;
            let s2 = s.remove(k);
            assert forall|a: int, b: int| 0 <= a < s2.len() && 0 <= b < s2.len() && a != b implies s2[a] != s2[b] by {
                let a1 = if a < k { a } else { a + 1 };
                let b1 = if b < k { b } else { b + 1 };
                assert(s2[a] == s[a1]);
                assert(s2[b] == s[b1]);
            }
            assert forall|q: int| 0 <= q < s2.len() implies (#[trigger] s2[q]) < n - 1 by {
                let q1 = if q < k { q } else { q + 1 };
                assert(s2[q] == s[q1]);
                assert(q1 != k);
            }
            lemma_distinct_below(s2, n1);
            if s.len() == n {
                assert forall|x: usize| x < n implies s.contains(x) by {
                    if x != top {
                        assert(s2.contains(x));
                        let q = choose|q: int| 0 <= q < s2.len() && s2[q] == x;
                        let q1 = if q < k { q } else { q + 1 };
                        assert(s[q1] == x);
                    }
                }
            }
            if forall|x: usize| x < n ==> s.contains(x) {
                assert forall|x: usize| x < n - 1 implies s2.contains(x) by {
                    assert(s.contains(x));
                    let q = choose|q: int| 0 <= q < s.len() && s[q] == x;
                    assert(q != k);
                    let q2 = if q < k { q } else { q - 1 };
                    assert(s2[q2] == x);
                }
            }
        } else {
            assert forall|q: int| 0 <= q < s.len() implies (#[trigger] s[q]) < n - 1 by {
                if s[q] == top {
                    assert(s.contains(top));
                }
            }
            lemma_distinct_below(s, n1);
            if forall|x: usize| x < n ==> s.contains(x) {
                assert(s.contains(top));
            }
        }
    }
}

} // verus!

verus! {

/// Dependency indices that agree with the dependency names of `g`.
pub open spec fn ids_match(g: Seq<NodeSpec>, ids: Seq<Seq<usize>>) -> bool {
    &&& ids.len() == g.len()
    &&& forall|i: int| 0 <= i < g.len() ==> (#[trigger] ids[i]).len() == g[i].deps.len()
    &&& forall|i: int, k: int|
        0 <= i < g.len() && 0 <= k < ids[i].len() ==> (#[trigger] ids[i][k]) < g.len()
            && g[ids[i][k] as int].name == g[i].deps[k]
}

proof fn lemma_order_prefix_done(
    g: Seq<NodeSpec>,
    ids: Seq<Seq<usize>>,
    done: Seq<bool>,
    o: Seq<Seq<char>>,
    p: int,
)
    requires
        graph_valid(g),
        ids_match(g, ids),
        done.len() == g.len(),
        forall|x: int|
            0 <= x < g.len() && !done[x] ==> exists|k: int| 0 <= k < ids[x].len() && !done[#[trigger] ids[x][k] as int],
        is_build_order(g, o),
        0 <= p < o.len(),
    ensures
        forall|q: int, i: int| 0 <= q <= p && 0 <= i < g.len() && g[i].name == o[q] ==> done[i],
    decreases p,
{
    if p > 0 {
        lemma_order_prefix_done(g, ids, done, o, p - 1);
    }
    assert forall|q: int, i: int| 0 <= q <= p && 0 <= i < g.len() && g[i].name == o[q] implies done[i] by {
        if q == p && !done[i] {
            let k = choose|k: int| 0 <= k < ids[i].len() && !done[#[trigger] ids[i][k] as int];
            let d = ids[i][k] as int;
            assert(placed_before(o, p, g[i].deps[k]));
            let q2 = choose|q2: int| 0 <= q2 < p && o[q2] == g[i].deps[k];
            assert(g[d].name == o[q2]);
        }
    }
}

/// When every target that is not done depends on one that is not done,
/// and some target is not done, the graph has no build order.
proof fn lemma_stuck_no_order(g: Seq<NodeSpec>, ids: Seq<Seq<usize>>, done: Seq<bool>, x0: int)
    requires
        graph_valid(g),
        ids_match(g, ids),
        done.len() == g.len(),
        forall|x: int|
            0 <= x < g.len() && !done[x] ==> exists|k: int| 0 <= k < ids[x].len() && !done[#[trigger] ids[x][k] as int],
        0 <= x0 < g.len(),
        !done[x0],
    ensures
        !exists|o: Seq<Seq<char>>| is_build_order(g, o),
{
    if exists|o: Seq<Seq<char>>| is_build_order(g, o) {
        let o = choose|o: Seq<Seq<char>>| is_build_order(g, o);
        assert(o.contains(g[x0].name));
        let p = choose|p: int| 0 <= p < o.len() && o[p] == g[x0].name;
        lemma_order_prefix_done(g, ids, done, o, p);
    }
}

} // verus!

verus! {

/// The names of the targets at the given indices.
pub open spec fn names_in(g: Seq<NodeSpec>, ids: Seq<usize>) -> Seq<Seq<char>> {
    Seq::new(ids.len(), |q: int| g[ids[q] as int].name)
}

/// Every dependency of each target in `queue[..h]` comes earlier in `queue`.
pub open spec fn deps_first(ids: Seq<Seq<usize>>, queue: Seq<usize>, h: int) -> bool {
    forall|p: int, k: int|
        0 <= p < h && 0 <= k < ids[queue[p] as int].len() ==> exists|q: int|
            0 <= q < p && queue[q] == #[trigger] ids[queue[p] as int][k]
}

proof fn lemma_queue_is_order(g: Seq<NodeSpec>, ids: Seq<Seq<usize>>, queue: Seq<usize>, names: Seq<Seq<char>>)
    requires
        g.len() <= usize::MAX,
        graph_valid(g),
        ids_match(g, ids),
        queue.len() == g.len(),
        queue.no_duplicates(),
        forall|q: int| 0 <= q < queue.len() ==> (#[trigger] queue[q]) < g.len(),
        forall|x: usize| x < g.len() ==> queue.contains(x),
        deps_first(ids, queue, queue.len() as int),
        names == names_in(g, queue),
    ensures
        is_build_order(g, names),
{
    assert forall|a: int, b: int| 0 <= a < names.len() && 0 <= b < names.len() && a != b implies names[a] != names[b] by {
        assert(queue[a] != queue[b]);
    }
    assert forall|p: int| 0 <= p < names.len() implies has_target(g, #[trigger] names[p]) by {
        assert(g[queue[p] as int].name == names[p]);
    }
    assert forall|i: int| 0 <= i < g.len() implies names.contains(#[trigger] g[i].name) by {
        let iu = i as usize;
        assert(iu < g.len());
        assert(queue.contains(iu));
        let p = choose|p: int| 0 <= p < queue.len() && queue[p] == iu;
        assert(queue[p] as int == i);
        assert(names[p] == g[i].name);
    }
    assert forall|p: int, i: int, k: int|
        0 <= p < names.len() && 0 <= i < g.len() && g[i].name == names[p] && 0 <= k < g[i].deps.len()
        implies #[trigger] placed_before(names, p, g[i].deps[k]) by {
        assert(g[queue[p] as int].name == names[p]);
        assert(queue[p] as int == i);
        let d = ids[i][k];
        let q = choose|q: int| 0 <= q < p && queue[q] == #[trigger] ids[queue[p] as int][k];
        assert(names[q] == g[d as int].name);
    }
}

impl BuildGraph {
    /// The targets of the graph.
    pub fn targets(&self) -> (r: &Vec<TargetNode>)
        ensures
            nodes_view(r@) == self@,
            graph_valid(self@),
    {
        proof {
            use_type_invariant(self);
        }
        &self.targets
    }

    /// Orders the targets so that each comes after everything it depends
    /// on, by repeatedly taking a target whose dependencies are all placed
    /// (Kahn's algorithm). Fails exactly when no such order exists, that
    /// is, when the dependencies form a cycle.
    pub fn topo_sort(&self) -> (r: Result<Vec<String>, GraphError>)
        ensures
            match r {
                Ok(order) => is_build_order(self@, order.deep_view()),
                Err(e) => e is CyclicDependency && !exists|o: Seq<Seq<char>>| is_build_order(self@, o),
            },
    {
        proof {
            use_type_invariant(self);
        }
        let n = self.targets.len();
        let ghost g = self@;
        let ghost ids = Seq::new(n as nat, |i: int| self.dep_ids@[i]@);
        proof {
            assert forall|i: int, k: int| 0 <= i < g.len() && 0 <= k < ids[i].len() implies (#[trigger] ids[i][k]) < g.len()
                && g[ids[i][k] as int].name == g[i].deps[k] by {
                assert(self.dep_ids@[i]@[k] == ids[i][k]);
                assert(g[i].deps[k] == self.targets@[i].deps@[k]@);
            }
        }
        let ghost mut done: Seq<bool> = Seq::new(n as nat, |i: int| false);
        // Each target's count of dependencies not yet placed.
        let mut indeg: Vec<usize> = Vec::new();
        let mut i: usize = 0;
        while i < n
            invariant
                i <= n,
                n == self.targets.len(),
                n == self.dep_ids.len(),
                ids == Seq::new(n as nat, |i: int| self.dep_ids@[i]@),
                ids_match(g, ids),
                g.len() == n,
                done == Seq::new(n as nat, |i: int| false),
                indeg.len() == i,
                forall|x: int| 0 <= x < i ==> #[trigger] indeg@[x] == undone(ids[x], done),
            decreases n - i,
        {
            proof {
                lemma_undone_all_false(ids[i as int], done);
            }
            indeg.push(self.dep_ids[i].len());
            i = i + 1;
        }
        // The targets whose dependencies are all placed, in the order found.
        let mut queue: Vec<usize> = Vec::new();
        let mut i: usize = 0;
        while i < n
            invariant
                i <= n,
                indeg.len() == n,
                queue@.no_duplicates(),
                forall|q: int| 0 <= q < queue.len() ==> (#[trigger] queue@[q]) < i,
                forall|x: int| 0 <= x < n ==> (queue@.contains(x as usize) <==> (x < i && #[trigger] indeg@[x] == 0)),
            decreases n - i,
        {
            let ghost old_queue = queue@;
            if indeg[i] == 0 {
                queue.push(i);
                proof {
                    assert forall|a: int, b: int| 0 <= a < queue@.len() && 0 <= b < queue@.len() && a != b implies queue@[a] != queue@[b] by {
                        if a < old_queue.len() && b < old_queue.len() {
                            assert(old_queue[a] != old_queue[b]);
                        } else if a == old_queue.len() {
                            assert(queue@[b] == old_queue[b]);
                        } else {
                            assert(queue@[a] == old_queue[a]);
                        }
                    }
                }
            }
            proof {
                assert forall|x: int| 0 <= x < n implies (queue@.contains(x as usize) <==> (x < i + 1 && #[trigger] indeg@[x] == 0)) by {
                    if queue@.contains(x as usize) {
                        let q = choose|q: int| 0 <= q < queue@.len() && queue@[q] == x as usize;
                        if q < old_queue.len() {
                            assert(old_queue[q] == x as usize);
                            assert(old_queue.contains(x as usize));
                        }
                    }
                    if x < i && indeg@[x] == 0 {
                        assert(old_queue.contains(x as usize));
                        let q = choose|q: int| 0 <= q < old_queue.len() && old_queue[q] == x as usize;
                        assert(queue@[q] == x as usize);
                    }
                    if x == i && indeg@[x] == 0 {
                        assert(queue@[queue@.len() - 1] == x as usize);
                    }
                }
            }
            i = i + 1;
        }
        let mut head: usize = 0;
        while head < queue.len()
            invariant
                n == self.targets.len(),
                n == self.reverse_deps.len(),
                g == self@,
                g.len() == n,
                graph_valid(g),
                ids_match(g, ids),
                forall|m: int, k: int|
                    0 <= m < n && 0 <= k < self.reverse_deps@[m].len() ==> (#[trigger] self.reverse_deps@[m]@[k]) < n,
                forall|m: int, c: int|
                    0 <= m < n && 0 <= c < n ==> occ(#[trigger] self.reverse_deps@[m]@, c as usize) == occ(
                        #[trigger] ids[c],
                        m as usize,
                    ),
                done.len() == n,
                indeg.len() == n,
                head <= queue.len(),
                queue@.no_duplicates(),
                forall|q: int| 0 <= q < queue.len() ==> (#[trigger] queue@[q]) < n,
                forall|x: int| 0 <= x < n ==> (#[trigger] done[x] <==> queue@.take(head as int).contains(x as usize)),
                forall|x: int| 0 <= x < n ==> #[trigger] indeg@[x] == undone(ids[x], done),
                forall|x: int| 0 <= x < n ==> (queue@.contains(x as usize) <==> #[trigger] indeg@[x] == 0),
                deps_first(ids, queue@, head as int),
            decreases n - head,
        {
            proof {
                lemma_distinct_below(queue@, n);
            }
            let m = queue[head];
            let ghost done_old = done;
            let ghost old_prefix = queue@.take(head as int);
            proof {
                assert(queue@.contains(m));
                assert(indeg@[m as int] == 0);
                lemma_undone_zero(ids[m as int], done);
                assert forall|k: int| 0 <= k < ids[queue@[head as int] as int].len() implies exists|q: int|
                    0 <= q < head && queue@[q] == #[trigger] ids[queue@[head as int] as int][k] by {
                    let d = ids[m as int][k];
                    assert(done[d as int]);
                    assert(queue@.take(head as int).contains(d));
                    let q = choose|q: int| 0 <= q < head && queue@.take(head as int)[q] == d;
                    assert(queue@[q] == d);
                }
                assert(!queue@.take(head as int).contains(m)) by {
                    if queue@.take(head as int).contains(m) {
                        let q = choose|q: int| 0 <= q < head && queue@.take(head as int)[q] == m;
                        assert(queue@[q] == queue@[head as int]);
                    }
                }
                assert forall|p: int, k: int| 0 <= p < head + 1 && 0 <= k < ids[queue@[p] as int].len() implies exists|q: int|
                    0 <= q < p && queue@[q] == #[trigger] ids[queue@[p] as int][k] by {
                    if p < head {
                        assert(deps_first(ids, queue@, head as int));
                    } else {
                        assert(ids[queue@[p] as int][k] == ids[queue@[head as int] as int][k]);
                    }
                }
                done = done.update(m as int, true);
                assert(queue@.take(head + 1) =~= queue@.take(head as int).push(m));
            }
            head = head + 1;
            let ghost prefix = queue@.take(head as int);
            let children = &self.reverse_deps[m];
            let mut j: usize = 0;
            while j < children.len()
                invariant
                    n == self.targets.len(),
                    m < n,
                    done_old.len() == n,
                    !done_old[m as int],
                    n == self.reverse_deps.len(),
                    children == self.reverse_deps@[m as int],
                    forall|k: int| 0 <= k < children.len() ==> (#[trigger] children@[k]) < n,
                    forall|c: int| 0 <= c < n ==> occ(children@, c as usize) == occ(#[trigger] ids[c], m),
                    ids_match(g, ids),
                    g.len() == n,
                    j <= children.len(),
                    indeg.len() == n,
                    head <= queue.len(),
                    queue@.take(head as int) == prefix,
                    queue@.no_duplicates(),
                    forall|q: int| 0 <= q < queue.len() ==> (#[trigger] queue@[q]) < n,
                    forall|x: int| 0 <= x < n ==> #[trigger] indeg@[x] + occ(children@.take(j as int), x as usize)
                        == undone(ids[x], done_old),
                    forall|x: int| 0 <= x < n ==> (queue@.contains(x as usize) <==> #[trigger] indeg@[x] == 0),
                    deps_first(ids, queue@, head as int),
                decreases children.len() - j,
            {
                let c = children[j];
                proof {
                    lemma_occ_take(children@, j as int, c);
                    lemma_occ_prefix(children@, j + 1, c);
                    lemma_undone_mark(ids[c as int], done_old, m);
                    assert(occ(children@, c) == occ(ids[c as int], m));
                }
                let d = indeg[c] - 1;
                let ghost old_indeg = indeg@;
                let ghost old_queue = queue@;
                indeg.set(c, d);
                if d == 0 {
                    assert(!old_queue.contains(c));
                    queue.push(c);
                    proof {
                        assert forall|a: int, b: int| 0 <= a < queue@.len() && 0 <= b < queue@.len() && a != b implies queue@[a] != queue@[b] by {
                            if a < old_queue.len() && b < old_queue.len() {
                            } else if a == old_queue.len() {
                                assert(queue@[b] == old_queue[b]);
                                assert(old_queue.contains(old_queue[b]));
                            } else {
                                assert(queue@[a] == old_queue[a]);
                                assert(old_queue.contains(old_queue[a]));
                            }
                        }
                        assert(queue@.take(head as int) =~= old_queue.take(head as int));
                        assert forall|p: int, k: int| 0 <= p < head && 0 <= k < ids[queue@[p] as int].len() implies exists|q: int|
                            0 <= q < p && queue@[q] == #[trigger] ids[queue@[p] as int][k] by {
                            assert(queue@[p] == old_queue[p]);
                            let q = choose|q: int| 0 <= q < p && old_queue[q] == #[trigger] ids[old_queue[p] as int][k];
                            assert(queue@[q] == old_queue[q]);
                        }
                    }
                }
                proof {
                    assert forall|x: int| 0 <= x < n implies #[trigger] indeg@[x] + occ(children@.take(j + 1), x as usize)
                        == undone(ids[x], done_old) by {
                        lemma_occ_take(children@, j as int, x as usize);
                    }
                    assert forall|x: int| 0 <= x < n implies (queue@.contains(x as usize) <==> #[trigger] indeg@[x] == 0) by {
                        if x != c as int {
                            assert(indeg@[x] == old_indeg[x]);
                            if queue@.contains(x as usize) && !old_queue.contains(x as usize) {
                                let q = choose|q: int| 0 <= q < queue@.len() && queue@[q] == x as usize;
                            }
                            if old_queue.contains(x as usize) {
                                let q = choose|q: int| 0 <= q < old_queue.len() && old_queue[q] == x as usize;
                                assert(queue@[q] == x as usize);
                            }
                        } else {
                            if d == 0 {
                                assert(queue@[queue@.len() - 1] == c);
                            }
                        }
                    }
                }
                j = j + 1;
            }
            proof {
                assert(children@.take(children@.len() as int) =~= children@);
                assert forall|x: int| 0 <= x < n implies #[trigger] indeg@[x] == undone(ids[x], done) by {
                    lemma_undone_mark(ids[x], done_old, m);
                }
                assert forall|x: int| 0 <= x < n implies (#[trigger] done[x] <==> queue@.take(head as int).contains(x as usize)) by {
                    if x == m as int {
                        assert(prefix[head - 1] == m);
                    } else {
                        assert(done[x] == done_old[x]);
                        assert(prefix == old_prefix.push(m));
                        if prefix.contains(x as usize) {
                            let q = choose|q: int| 0 <= q < prefix.len() && prefix[q] == x as usize;
                            assert(q != head - 1);
                            assert(old_prefix[q] == x as usize);
                        }
                        if old_prefix.contains(x as usize) {
                            let q = choose|q: int| 0 <= q < old_prefix.len() && old_prefix[q] == x as usize;
                            assert(prefix[q] == x as usize);
                        }
                    }
                }
            }
        }
        proof {
            lemma_distinct_below(queue@, n);
            assert(queue@.take(head as int) =~= queue@);
        }
        if queue.len() != n {
            proof {
                let x0 = choose|x: usize| x < n && !queue@.contains(x);
                assert forall|x: int| 0 <= x < g.len() && !done[x] implies exists|k: int|
                    0 <= k < ids[x].len() && !done[#[trigger] ids[x][k] as int] by {
                    lemma_undone_zero(ids[x], done);
                    assert(indeg@[x] != 0);
                }
                assert(!done[x0 as int]);
                lemma_stuck_no_order(g, ids, done, x0 as int);
            }
            return Err(GraphError::CyclicDependency);
        }
        let mut names: Vec<String> = Vec::new();
        let mut p: usize = 0;
        assert(names.deep_view() =~= names_in(g, queue@.take(0)));
        while p < n
            invariant
                p <= n,
                queue.len() == n,
                n == self.targets.len(),
                g == self@,
                forall|q: int| 0 <= q < queue.len() ==> (#[trigger] queue@[q]) < n,
                names.deep_view() == names_in(g, queue@.take(p as int)),
            decreases n - p,
        {
            let s = self.targets[queue[p]].name.clone();
            let ghost before = names.deep_view();
            names.push(s);
            proof {
                lemma_push_deep_view(before, names@, s);
                assert(g[queue@[p as int] as int] == self.targets@[queue@[p as int] as int]@);
                assert(s@ == g[queue@[p as int] as int].name);
            }
            assert(names_in(g, queue@.take(p + 1)) =~= names_in(g, queue@.take(p as int)).push(
                g[queue@[p as int] as int].name,
            ));
            assert(names.deep_view() =~= names_in(g, queue@.take(p + 1)));
            p = p + 1;
        }
        proof {
            assert(queue@.take(n as int) =~= queue@);
            lemma_queue_is_order(g, ids, queue@, names.deep_view());
        }
        Ok(names)
    }
}

} // verus!

verus! {

// ---------- roots, scheduling, and the dot view ----------

/// The names of the targets that depend on nothing, in graph order.
pub open spec fn roots_of(g: Seq<NodeSpec>) -> Seq<Seq<char>>
    decreases g.len(),
{
    if g.len() == 0 {
        seq![]
    } else {
        roots_of(g.drop_last()) + if g.last().deps.len() == 0 {
            seq![g.last().name]
        } else {
            seq![]
        }
    }
}

/// The first index at or after `i` of a target named `x`, or the length.
pub open spec fn node_index(g: Seq<NodeSpec>, x: Seq<char>, i: int) -> int
    decreases g.len() - i,
{
    if 0 <= i < g.len() && g[i].name != x {
        node_index(g, x, i + 1)
    } else {
        i
    }
}

pub proof fn lemma_node_index(g: Seq<NodeSpec>, x: Seq<char>, i: int)
    requires
        0 <= i <= g.len(),
    ensures
        i <= node_index(g, x, i) <= g.len(),
        node_index(g, x, i) < g.len() ==> g[node_index(g, x, i)].name == x,
        forall|j: int| i <= j < node_index(g, x, i) ==> #[trigger] g[j].name != x,
    decreases g.len() - i,
{
    if i < g.len() && g[i].name != x {
        lemma_node_index(g, x, i + 1);
    }
}

/// `x` is not done, and every dependency of the target named `x` is.
pub open spec fn is_ready(g: Seq<NodeSpec>, done: Seq<Seq<char>>, x: Seq<char>) -> bool {
    let i = node_index(g, x, 0);
    &&& !done.contains(x)
    &&& forall|k: int| 0 <= k < g[i].deps.len() ==> done.contains(#[trigger] g[i].deps[k])
}

/// The names in `order` that are ready to build, in order.
pub open spec fn ready_of(g: Seq<NodeSpec>, order: Seq<Seq<char>>, done: Seq<Seq<char>>) -> Seq<Seq<char>>
    decreases order.len(),
{
    if order.len() == 0 {
        seq![]
    } else {
        ready_of(g, order.drop_last(), done) + if is_ready(g, done, order.last()) {
            seq![order.last()]
        } else {
            seq![]
        }
    }
}

fn contains_string(v: &Vec<String>, x: &String) -> (r: bool)
    ensures
        r == v.deep_view().contains(x@),
{
    let mut i: usize = 0;
    while i < v.len()
        invariant
            i <= v.len(),
            forall|q: int| 0 <= q < i ==> v@[q]@ != x@,
        decreases v.len() - i,
    {
        if v[i] == *x {
            assert(v.deep_view()[i as int] == x@);
            return true;
        }
        i = i + 1;
    }
    assert forall|q: int| 0 <= q < v.deep_view().len() implies v.deep_view()[q] != x@ by {
        assert(v.deep_view()[q] == v@[q]@);
    }
    false
}

impl BuildGraph {
    /// The names of the targets that depend on nothing, in graph order.
    pub fn root_targets(&self) -> (r: Vec<String>)
        ensures
            r.deep_view() == roots_of(self@),
    {
        let ghost g = self@;
        let mut out: Vec<String> = Vec::new();
        let mut i: usize = 0;
        assert(g.take(0) =~= seq![]);
        assert(out.deep_view() =~= roots_of(g.take(0)));
        while i < self.targets.len()
            invariant
                i <= self.targets.len(),
                g == self@,
                g.len() == self.targets.len(),
                out.deep_view() == roots_of(g.take(i as int)),
            decreases self.targets.len() - i,
        {
            assert(g.take(i + 1).drop_last() =~= g.take(i as int));
            assert(g[i as int] == self.targets@[i as int]@);
            if self.targets[i].deps.len() == 0 {
                let s = self.targets[i].name.clone();
                let ghost before = out.deep_view();
                out.push(s);
                proof {
                    lemma_push_deep_view(before, out@, s);
                }
                assert(out.deep_view() =~= roots_of(g.take(i + 1)));
            } else {
                assert(roots_of(g.take(i + 1)) =~= roots_of(g.take(i as int)));
            }
            i = i + 1;
        }
        assert(g.take(i as int) =~= g);
        out
    }

    /// The names in `order` that are not done and whose dependencies all
    /// are: the targets that may be built next.
    pub fn runnable(&self, order: &Vec<String>, done: &Vec<String>) -> (r: Vec<String>)
        requires
            forall|p: int| 0 <= p < order.len() ==> has_target(self@, #[trigger] order.deep_view()[p]),
        ensures
            r.deep_view() == ready_of(self@, order.deep_view(), done.deep_view()),
    {
        proof {
            use_type_invariant(self);
        }
        let ghost g = self@;
        let ghost ov = order.deep_view();
        let ghost dv = done.deep_view();
        let mut out: Vec<String> = Vec::new();
        let mut p: usize = 0;
        assert(out.deep_view() =~= ready_of(g, ov.take(0), dv));
        while p < order.len()
            invariant
                p <= order.len(),
                g == self@,
                g.len() == self.targets.len(),
                ov == order.deep_view(),
                dv == done.deep_view(),
                graph_valid(g),
                forall|q: int| 0 <= q < order.len() ==> has_target(g, #[trigger] ov[q]),
                out.deep_view() == ready_of(g, ov.take(p as int), dv),
            decreases order.len() - p,
        {
            let name = &order[p];
            assert(ov[p as int] == name@);
            assert(ov.take(p + 1).drop_last() =~= ov.take(p as int));
            assert(ov.take(p + 1).last() == name@);
            let ready = if contains_string(done, name) {
                false
            } else {
                proof {
                    lemma_node_index(g, name@, 0);
                    assert(has_target(g, ov[p as int]));
                    let w = choose|w: int| 0 <= w < g.len() && (#[trigger] g[w]).name == name@;
                }
                let found = find_target(&self.targets, name);
                proof {
                    if found is None {
                        let w = choose|w: int| 0 <= w < g.len() && (#[trigger] g[w]).name == name@;
                        assert(g[w] == self.targets@[w]@);
                    }
                }
                let j = found.unwrap();
                proof {
                    let ni = node_index(g, name@, 0);
                    assert(g[j as int] == self.targets@[j as int]@);
                    if ni != j as int {
                        if ni < j {
                            assert(g[ni].name == name@);
                        } else {
                            assert(g[j as int].name != name@);
                        }
                    }
                }
                let deps = &self.targets[j].deps;
                let mut all = true;
                let mut k: usize = 0;
                while k < deps.len()
                    invariant
                        k <= deps.len(),
                        dv == done.deep_view(),
                        all == forall|q: int| 0 <= q < k ==> dv.contains(#[trigger] deps.deep_view()[q]),
                    decreases deps.len() - k,
                {
                    let has = contains_string(done, &deps[k]);
                    assert(deps.deep_view()[k as int] == deps@[k as int]@);
                    all = all && has;
                    k = k + 1;
                }
                proof {
                    lemma_node_index(g, name@, 0);
                    let ni = node_index(g, name@, 0);
                    assert(g[j as int] == self.targets@[j as int]@);
                    assert(g[j as int].name == name@);
                    assert(ni <= j as int);
                    assert(g[ni].name == name@);
                    assert(ni == j as int);
                    assert(g[ni].deps == deps.deep_view());
                    if all {
                        assert forall|q: int| 0 <= q < g[ni].deps.len() implies dv.contains(#[trigger] g[ni].deps[q]) by {
                            assert(g[ni].deps[q] == deps.deep_view()[q]);
                        }
                    } else {
                        let q = choose|q: int| 0 <= q < k && !dv.contains(#[trigger] deps.deep_view()[q]);
                        assert(g[ni].deps[q] == deps.deep_view()[q]);
                    }
                    assert(all == is_ready(g, dv, name@));
                }
                all
            };
            assert(ready == is_ready(g, dv, name@));
            if ready {
                let s = name.clone();
                let ghost before = out.deep_view();
                out.push(s);
                proof {
                    lemma_push_deep_view(before, out@, s);
                }
                assert(out.deep_view() =~= ready_of(g, ov.take(p + 1), dv));
            } else {
                assert(ready_of(g, ov.take(p + 1), dv) =~= ready_of(g, ov.take(p as int), dv));
            }
            p = p + 1;
        }
        assert(ov.take(p as int) =~= ov);
        out
    }
}

} // verus!

verus! {

proof fn lemma_ready_of_contains(g: Seq<NodeSpec>, o: Seq<Seq<char>>, done: Seq<Seq<char>>, p: int)
    requires
        0 <= p < o.len(),
        is_ready(g, done, o[p]),
    ensures
        ready_of(g, o, done).contains(o[p]),
    decreases o.len(),
{
    let r = ready_of(g, o, done);
    if p == o.len() - 1 {
        assert(r[r.len() - 1] == o[p]);
    } else {
        lemma_ready_of_contains(g, o.drop_last(), done, p);
        let prev = ready_of(g, o.drop_last(), done);
        let q = choose|q: int| 0 <= q < prev.len() && prev[q] == o.drop_last()[p];
        assert(r[q] == prev[q]);
    }
}

proof fn lemma_order_prefix_ready(g: Seq<NodeSpec>, o: Seq<Seq<char>>, done: Seq<Seq<char>>, p: int)
    requires
        is_build_order(g, o),
        ready_of(g, o, done).len() == 0,
        0 <= p < o.len(),
    ensures
        forall|q: int| 0 <= q <= p ==> done.contains(#[trigger] o[q]),
    decreases p,
{
    if p > 0 {
        lemma_order_prefix_ready(g, o, done, p - 1);
    }
    if !done.contains(o[p]) {
        assert(has_target(g, o[p]));
        let w = choose|w: int| 0 <= w < g.len() && (#[trigger] g[w]).name == o[p];
        lemma_node_index(g, o[p], 0);
        let i = node_index(g, o[p], 0);
        assert(i <= w);
        assert forall|k: int| 0 <= k < g[i].deps.len() implies done.contains(#[trigger] g[i].deps[k]) by {
            assert(placed_before(o, p, g[i].deps[k]));
            let q = choose|q: int| 0 <= q < p && o[q] == g[i].deps[k];
            assert(done.contains(o[q]));
        }
        assert(is_ready(g, done, o[p]));
        lemma_ready_of_contains(g, o, done, p);
    }
}

/// Scheduling never stalls on a build order: while some target of the
/// order is not done, some target is ready to build. (The build loop needs
/// no deadlock check once the order is found.)
pub proof fn lemma_ready_progress(g: Seq<NodeSpec>, order: Seq<Seq<char>>, done: Seq<Seq<char>>)
    requires
        is_build_order(g, order),
        exists|p: int| 0 <= p < order.len() && !done.contains(#[trigger] order[p]),
    ensures
        ready_of(g, order, done).len() > 0,
{
    if ready_of(g, order, done).len() == 0 {
        let p = choose|p: int| 0 <= p < order.len() && !done.contains(#[trigger] order[p]);
        lemma_order_prefix_ready(g, order, done, order.len() - 1);
    }
}

} // verus!

verus! {

/// One edge line of the Graphviz view: `    "a" -> "b";`.
pub open spec fn dot_edge(a: Seq<char>, b: Seq<char>) -> Seq<char> {
    "    \""@ + a + "\" -> \""@ + b + "\";\n"@
}

/// The edges from each dependency to the target.
pub open spec fn dot_dep_edges(deps: Seq<Seq<char>>, name: Seq<char>) -> Seq<char>
    decreases deps.len(),
{
    if deps.len() == 0 {
        seq![]
    } else {
        dot_dep_edges(deps.drop_last(), name) + dot_edge(deps.last(), name)
    }
}

/// The edges from the target to each of its sources.
pub open spec fn dot_source_edges(name: Seq<char>, sources: Seq<Seq<char>>) -> Seq<char>
    decreases sources.len(),
{
    if sources.len() == 0 {
        seq![]
    } else {
        dot_source_edges(name, sources.drop_last()) + dot_edge(name, sources.last())
    }
}

/// The edge lines of every target, in graph order.
pub open spec fn dot_body(g: Seq<NodeSpec>) -> Seq<char>
    decreases g.len(),
{
    if g.len() == 0 {
        seq![]
    } else {
        dot_body(g.drop_last()) + dot_dep_edges(g.last().deps, g.last().name) + dot_source_edges(
            g.last().name,
            g.last().sources,
        )
    }
}

/// The Graphviz view of a graph.
pub open spec fn dot_text(g: Seq<NodeSpec>) -> Seq<char> {
    "digraph calmake {\n"@ + dot_body(g) + "}\n"@
}

fn push_edge(out: &mut String, a: &String, b: &String)
    ensures
        final(out)@ == old(out)@ + dot_edge(a@, b@),
{
    push_str(out, "    \"");
    push_str(out, a.as_str());
    push_str(out, "\" -> \"");
    push_str(out, b.as_str());
    push_str(out, "\";\n");
    assert(out@ =~= old(out)@ + dot_edge(a@, b@));
}

impl BuildGraph {
    /// The graph as Graphviz text: an edge from each dependency to the
    /// target, and from the target to each of its sources.
    pub fn render_dot(&self) -> (r: String)
        ensures
            r@ == dot_text(self@),
    {
        let ghost g = self@;
        let mut out = String::new();
        push_str(&mut out, "digraph calmake {\n");
        let ghost start = out@;
        let mut i: usize = 0;
        assert(g.take(0) =~= seq![]);
        assert(out@ =~= start + dot_body(g.take(0)));
        while i < self.targets.len()
            invariant
                i <= self.targets.len(),
                g == self@,
                g.len() == self.targets.len(),
                out@ == start + dot_body(g.take(i as int)),
            decreases self.targets.len() - i,
        {
            let node = &self.targets[i];
            assert(g[i as int] == node@);
            assert(g.take(i + 1).drop_last() =~= g.take(i as int));
            let ghost base = out@;
            let mut k: usize = 0;
            assert(node.deps.deep_view().take(0) =~= seq![]);
            assert(out@ =~= base + dot_dep_edges(node.deps.deep_view().take(0), node.name@));
            while k < node.deps.len()
                invariant
                    k <= node.deps.len(),
                    out@ == base + dot_dep_edges(node.deps.deep_view().take(k as int), node.name@),
                decreases node.deps.len() - k,
            {
                push_edge(&mut out, &node.deps[k], &node.name);
                assert(node.deps.deep_view().take(k + 1).drop_last() =~= node.deps.deep_view().take(k as int));
                assert(node.deps.deep_view()[k as int] == node.deps@[k as int]@);
                assert(out@ =~= base + dot_dep_edges(node.deps.deep_view().take(k + 1), node.name@));
                k = k + 1;
            }
            assert(node.deps.deep_view().take(k as int) =~= node.deps.deep_view());
            let ghost mid = out@;
            let mut k: usize = 0;
            assert(node.sources.deep_view().take(0) =~= seq![]);
            assert(out@ =~= mid + dot_source_edges(node.name@, node.sources.deep_view().take(0)));
            while k < node.sources.len()
                invariant
                    k <= node.sources.len(),
                    out@ == mid + dot_source_edges(node.name@, node.sources.deep_view().take(k as int)),
                decreases node.sources.len() - k,
            {
                push_edge(&mut out, &node.name, &node.sources[k]);
                assert(node.sources.deep_view().take(k + 1).drop_last() =~= node.sources.deep_view().take(k as int));
                assert(node.sources.deep_view()[k as int] == node.sources@[k as int]@);
                assert(out@ =~= mid + dot_source_edges(node.name@, node.sources.deep_view().take(k + 1)));
                k = k + 1;
            }
            assert(node.sources.deep_view().take(k as int) =~= node.sources.deep_view());
            assert(out@ =~= start + dot_body(g.take(i + 1)));
            i = i + 1;
        }
        assert(g.take(i as int) =~= g);
        push_str(&mut out, "}\n");
        assert(out@ =~= dot_text(g));
        out
    }
}

} // verus!

verus! {

/// A copy of a node, to hand to another worker.
pub fn node_clone_shallow(node: &TargetNode) -> (r: TargetNode)
    ensures
        r@ == node@,
{
    TargetNode {
        name: node.name.clone(),
        kind: node.kind,
        language: node.language,
        sources: clone_strings(&node.sources),
        deps: clone_strings(&node.deps),
        output: node.output.clone(),
        cflags: clone_strings(&node.cflags),
        cppflags: clone_strings(&node.cppflags),
        ldflags: clone_strings(&node.ldflags),
    }
}

} // verus!

verus! {

pub proof fn lemma_roots_contains(g: Seq<NodeSpec>, i: int)
    requires
        0 <= i < g.len(),
        g[i].deps.len() == 0,
    ensures
        roots_of(g).contains(g[i].name),
    decreases g.len(),
{
    let r = roots_of(g);
    if i == g.len() - 1 {
        assert(r[r.len() - 1] == g[i].name);
    } else {
        lemma_roots_contains(g.drop_last(), i);
        let prev = roots_of(g.drop_last());
        let q = choose|q: int| 0 <= q < prev.len() && prev[q] == g.drop_last()[i].name;
        assert(r[q] == prev[q]);
    }
}

/// A graph with targets that has a build order has a root: a target that
/// depends on nothing. (The first target of any build order is one.)
pub proof fn lemma_ordered_graph_has_root(g: Seq<NodeSpec>, o: Seq<Seq<char>>)
    requires
        is_build_order(g, o),
        g.len() > 0,
    ensures
        roots_of(g).len() > 0,
{
    assert(has_target(g, o[0]));
    let i = choose|i: int| 0 <= i < g.len() && (#[trigger] g[i]).name == o[0];
    if g[i].deps.len() > 0 {
        assert(placed_before(o, 0, g[i].deps[0]));
    }
    lemma_roots_contains(g, i);
}

} // verus!

verus! {

/// What the build loop does next.
#[derive(Debug)]
pub enum Step {
    /// Every target of the order is done.
    Finished,
    /// Build these targets, all at once.
    Run(Vec<String>),
    /// Targets remain but none can run: the order is not a build order.
    Stalled,
}

impl BuildGraph {
    /// The next step of the build loop: finished once as many targets are
    /// done as the order holds, else the targets ready to build, or
    /// stalled when none is.
    pub fn next_step(&self, order: &Vec<String>, done: &Vec<String>) -> (r: Step)
        requires
            forall|p: int| 0 <= p < order.len() ==> has_target(self@, #[trigger] order.deep_view()[p]),
        ensures
            match r {
                Step::Finished => done.len() == order.len(),
                Step::Run(ts) => done.len() != order.len() && ts.deep_view() == ready_of(
                    self@,
                    order.deep_view(),
                    done.deep_view(),
                ) && ts.len() > 0,
                Step::Stalled => done.len() != order.len() && ready_of(
                    self@,
                    order.deep_view(),
                    done.deep_view(),
                ).len() == 0,
            },
    {
        if done.len() == order.len() {
            return Step::Finished;
        }
        let ts = self.runnable(order, done);
        if ts.len() == 0 {
            Step::Stalled
        } else {
            Step::Run(ts)
        }
    }
}

} // verus!

verus! {

// ---------- a whole build run ----------

/// The batches a build runs when `done` is finished already: each step runs
/// every target that is ready, as `next_step` gives them, until every
/// target is done or (with no fuel left, or nothing ready) the run stops.
pub open spec fn schedule(g: Seq<NodeSpec>, order: Seq<Seq<char>>, done: Seq<Seq<char>>, fuel: nat) -> Seq<Seq<Seq<char>>>
    decreases fuel,
{
    if fuel == 0 || done.len() == order.len() {
        seq![]
    } else {
        let ts = ready_of(g, order, done);
        if ts.len() == 0 {
            seq![]
        } else {
            seq![ts] + schedule(g, order, done + ts, (fuel - 1) as nat)
        }
    }
}

/// The batches, one after another.
pub open spec fn joined(bs: Seq<Seq<Seq<char>>>) -> Seq<Seq<char>>
    decreases bs.len(),
{
    if bs.len() == 0 {
        seq![]
    } else {
        bs[0] + joined(bs.drop_first())
    }
}

proof fn lemma_ready_of_members(g: Seq<NodeSpec>, order: Seq<Seq<char>>, done: Seq<Seq<char>>)
    ensures
        forall|j: int|
            0 <= j < ready_of(g, order, done).len() ==> {
                &&& is_ready(g, done, #[trigger] ready_of(g, order, done)[j])
                &&& order.contains(ready_of(g, order, done)[j])
            },
        order.no_duplicates() ==> ready_of(g, order, done).no_duplicates(),
    decreases order.len(),
{
    if order.len() > 0 {
        let o2 = order.drop_last();
        lemma_ready_of_members(g, o2, done);
        let r2 = ready_of(g, o2, done);
        let r = ready_of(g, order, done);
        assert forall|j: int| 0 <= j < r.len() implies {
            &&& is_ready(g, done, #[trigger] r[j])
            &&& order.contains(r[j])
        } by {
            if j < r2.len() {
                assert(r[j] == r2[j]);
                let q = choose|q: int| 0 <= q < o2.len() && o2[q] == r2[j];
                assert(order[q] == o2[q]);
            } else {
                assert(r[j] == order.last());
                assert(order[order.len() - 1] == order.last());
            }
        }
        if order.no_duplicates() {
            assert(o2.no_duplicates()) by {
                assert forall|a: int, b: int| 0 <= a < o2.len() && 0 <= b < o2.len() && a != b implies o2[a] != o2[b] by {
                    assert(o2[a] == order[a] && o2[b] == order[b]);
                }
            }
            assert forall|a: int, b: int| 0 <= a < r.len() && 0 <= b < r.len() && a != b implies r[a] != r[b] by {
                if a < r2.len() && b < r2.len() {
                    assert(r[a] == r2[a] && r[b] == r2[b]);
                } else if a < r2.len() {
                    assert(r[a] == r2[a]);
                    let q = choose|q: int| 0 <= q < o2.len() && o2[q] == r2[a];
                    assert(order[q] == o2[q]);
                    assert(r[b] == order[order.len() - 1]);
                } else if b < r2.len() {
                    assert(r[b] == r2[b]);
                    let q = choose|q: int| 0 <= q < o2.len() && o2[q] == r2[b];
                    assert(order[q] == o2[q]);
                    assert(r[a] == order[order.len() - 1]);
                }
            }
        }
    }
}

/// A list without repeats whose entries all occur in `b` is no longer than `b`.
proof fn lemma_covered_len(a: Seq<Seq<char>>, b: Seq<Seq<char>>)
    requires
        a.no_duplicates(),
        forall|i: int| 0 <= i < a.len() ==> b.contains(#[trigger] a[i]),
    ensures
        a.len() <= b.len(),
{
    broadcast use vstd::seq_lib::seq_to_set_is_finite;
    a.unique_seq_to_set();
    b.lemma_cardinality_of_set();
    assert(a.to_set().subset_of(b.to_set())) by {
        assert forall|x: Seq<char>| a.to_set().contains(x) implies b.to_set().contains(x) by {
            let i = choose|i: int| 0 <= i < a.len() && a[i] == x;
            assert(b.contains(a[i]));
        }
    }
    vstd::set_lib::lemma_len_subset(a.to_set(), b.to_set());
}

proof fn lemma_joined_take(ts: Seq<Seq<char>>, rest: Seq<Seq<Seq<char>>>, b: int)
    requires
        1 <= b <= rest.len() + 1,
    ensures
        joined((seq![ts] + rest).take(b)) == ts + joined(rest.take(b - 1)),
{
    let bs = (seq![ts] + rest).take(b);
    assert(bs[0] == ts);
    assert(bs.drop_first() =~= rest.take(b - 1));
}

proof fn lemma_schedule_general(g: Seq<NodeSpec>, order: Seq<Seq<char>>, done: Seq<Seq<char>>, fuel: nat)
    requires
        is_build_order(g, order),
        done.no_duplicates(),
        forall|i: int| 0 <= i < done.len() ==> order.contains(#[trigger] done[i]),
        fuel + done.len() >= order.len(),
    ensures
        ({
            let bs = schedule(g, order, done, fuel);
            let all = done + joined(bs);
            &&& all.len() == order.len()
            &&& all.no_duplicates()
            &&& forall|p: int| 0 <= p < order.len() ==> all.contains(#[trigger] order[p])
            &&& forall|b: int| 0 <= b < bs.len() ==> (#[trigger] bs[b]).len() > 0
            &&& forall|b: int, j: int, k: int|
                0 <= b < bs.len() && 0 <= j < bs[b].len() && 0 <= k < g[node_index(g, bs[b][j], 0)].deps.len()
                    ==> (done + joined(bs.take(b))).contains(#[trigger] g[node_index(g, bs[b][j], 0)].deps[k])
        }),
    decreases fuel,
{
    let bs = schedule(g, order, done, fuel);
    lemma_covered_len(done, order);
    if done.len() == order.len() {
        assert(bs =~= seq![]);
        assert(done + joined(bs) =~= done);
        assert forall|p: int| 0 <= p < order.len() implies done.contains(#[trigger] order[p]) by {
            if !done.contains(order[p]) {
                let d2 = done.push(order[p]);
                assert forall|i: int| 0 <= i < d2.len() implies order.contains(#[trigger] d2[i]) by {
                    if i < done.len() {
                        assert(d2[i] == done[i]);
                    } else {
                        assert(d2[i] == order[p]);
                    }
                }
                assert(d2.no_duplicates()) by {
                    assert forall|a: int, b: int| 0 <= a < d2.len() && 0 <= b < d2.len() && a != b implies d2[a] != d2[b] by {
                        if a < done.len() && b < done.len() {
                            assert(d2[a] == done[a] && d2[b] == done[b]);
                        } else if a < done.len() {
                            assert(d2[a] == done[a]);
                        } else if b < done.len() {
                            assert(d2[b] == done[b]);
                        }
                    }
                }
                lemma_covered_len(d2, order);
            }
        }
    } else {
        assert(exists|p: int| 0 <= p < order.len() && !done.contains(#[trigger] order[p])) by {
            if forall|p: int| 0 <= p < order.len() ==> done.contains(#[trigger] order[p]) {
                lemma_covered_len(order, done);
            }
        }
        lemma_ready_progress(g, order, done);
        let ts = ready_of(g, order, done);
        lemma_ready_of_members(g, order, done);
        let d2 = done + ts;
        assert forall|a: int, b: int| 0 <= a < done.len() && 0 <= b < ts.len() implies done[a] != ts[b] by {
            assert(is_ready(g, done, ts[b]));
            assert(done.contains(done[a]));
        }
        vstd::seq_lib::lemma_no_dup_in_concat(done, ts);
        assert forall|i: int| 0 <= i < d2.len() implies order.contains(#[trigger] d2[i]) by {
            if i < done.len() {
                assert(d2[i] == done[i]);
            } else {
                assert(d2[i] == ts[i - done.len()]);
            }
        }
        let rest = schedule(g, order, d2, (fuel - 1) as nat);
        lemma_schedule_general(g, order, d2, (fuel - 1) as nat);
        assert(bs == seq![ts] + rest);
        assert(joined(bs) == ts + joined(rest)) by {
            assert(bs[0] == ts);
            assert(bs.drop_first() =~= rest);
        }
        assert(done + joined(bs) =~= d2 + joined(rest));
        assert forall|b: int| 0 <= b < bs.len() implies (#[trigger] bs[b]).len() > 0 by {
            if b > 0 {
                assert(bs[b] == rest[b - 1]);
            }
        }
        assert forall|b: int, j: int, k: int|
            0 <= b < bs.len() && 0 <= j < bs[b].len() && 0 <= k < g[node_index(g, bs[b][j], 0)].deps.len()
                implies (done + joined(bs.take(b))).contains(#[trigger] g[node_index(g, bs[b][j], 0)].deps[k]) by {
            if b == 0 {
                assert(bs.take(0) =~= seq![]);
                assert(done + joined(bs.take(0)) =~= done);
                assert(is_ready(g, done, ts[j]));
            } else {
                assert(bs[b] == rest[b - 1]);
                lemma_joined_take(ts, rest, b);
                assert(done + joined(bs.take(b)) =~= d2 + joined(rest.take(b - 1)));
                assert(rest[b - 1][j] == bs[b][j]);
            }
        }
    }
}

/// A whole build run, step by step as `next_step` gives it, from nothing
/// done along a build order: every target is built exactly once, each
/// batch holds at least one target, the run ends with every target done,
/// and every dependency of a target is built in an earlier batch.
pub proof fn lemma_run_builds_each_target_once(g: Seq<NodeSpec>, order: Seq<Seq<char>>)
    requires
        is_build_order(g, order),
    ensures
        ({
            let bs = schedule(g, order, seq![], order.len());
            let all = joined(bs);
            &&& all.len() == order.len()
            &&& all.no_duplicates()
            &&& forall|p: int| 0 <= p < order.len() ==> all.contains(#[trigger] order[p])
            &&& forall|b: int| 0 <= b < bs.len() ==> (#[trigger] bs[b]).len() > 0
            &&& forall|b: int, j: int, k: int|
                0 <= b < bs.len() && 0 <= j < bs[b].len() && 0 <= k < g[node_index(g, bs[b][j], 0)].deps.len()
                    ==> joined(bs.take(b)).contains(#[trigger] g[node_index(g, bs[b][j], 0)].deps[k])
        }),
{
    let e: Seq<Seq<char>> = seq![];
    lemma_schedule_general(g, order, e, order.len());
    let bs = schedule(g, order, e, order.len());
    assert(e + joined(bs) =~= joined(bs));
    assert forall|b: int| 0 <= b < bs.len() implies e + joined(bs.take(b)) =~= joined(bs.take(b)) by {}
}

} // verus!

verus! {

// ---------- what the DOT text holds ----------

/// `piece` occurs in `t` at some position.
pub open spec fn occurs_in(t: Seq<char>, piece: Seq<char>) -> bool {
    exists|o: int| 0 <= o && o + piece.len() <= t.len() && #[trigger] t.subrange(o, o + piece.len()) == piece
}

proof fn lemma_occurs_extend(a: Seq<char>, b: Seq<char>, piece: Seq<char>)
    ensures
        occurs_in(a, piece) ==> occurs_in(a + b, piece) && occurs_in(b + a, piece),
{
    if occurs_in(a, piece) {
        let o = choose|o: int| 0 <= o && o + piece.len() <= a.len() && #[trigger] a.subrange(o, o + piece.len()) == piece;
        assert((a + b).subrange(o, o + piece.len()) =~= piece);
        assert((b + a).subrange(b.len() + o, b.len() + o + piece.len()) =~= piece);
    }
}

proof fn lemma_occurs_whole(a: Seq<char>)
    ensures
        occurs_in(a, a),
{
    let o: int = 0;
    assert(a.subrange(o, o + a.len()) =~= a);
}

/// The length of an edge line.
pub open spec fn edge_len(a: Seq<char>, b: Seq<char>) -> int {
    (a.len() + b.len() + 14) as int
}

/// The total length of the edge lines from each of `deps` to `name`.
pub open spec fn dep_edges_len(deps: Seq<Seq<char>>, name: Seq<char>) -> int
    decreases deps.len(),
{
    if deps.len() == 0 {
        0
    } else {
        dep_edges_len(deps.drop_last(), name) + edge_len(deps.last(), name)
    }
}

/// The total length of the edge lines from `name` to each of `srcs`.
pub open spec fn source_edges_len(name: Seq<char>, srcs: Seq<Seq<char>>) -> int
    decreases srcs.len(),
{
    if srcs.len() == 0 {
        0
    } else {
        source_edges_len(name, srcs.drop_last()) + edge_len(name, srcs.last())
    }
}

/// The total length of all edge lines of a graph.
pub open spec fn edges_len(g: Seq<NodeSpec>) -> int
    decreases g.len(),
{
    if g.len() == 0 {
        0
    } else {
        edges_len(g.drop_last()) + dep_edges_len(g.last().deps, g.last().name) + source_edges_len(
            g.last().name,
            g.last().sources,
        )
    }
}

proof fn lemma_edge_len(a: Seq<char>, b: Seq<char>)
    ensures
        dot_edge(a, b).len() == edge_len(a, b),
{
    reveal_strlit("    \"");
    reveal_strlit("\" -> \"");
    reveal_strlit("\";\n");
}

proof fn lemma_dep_edges(deps: Seq<Seq<char>>, name: Seq<char>)
    ensures
        dot_dep_edges(deps, name).len() == dep_edges_len(deps, name),
        forall|k: int| 0 <= k < deps.len() ==> occurs_in(dot_dep_edges(deps, name), #[trigger] dot_edge(deps[k], name)),
    decreases deps.len(),
{
    if deps.len() > 0 {
        let d0 = deps.drop_last();
        lemma_dep_edges(d0, name);
        lemma_edge_len(deps.last(), name);
        let e = dot_edge(deps.last(), name);
        assert forall|k: int| 0 <= k < deps.len() implies occurs_in(dot_dep_edges(deps, name), #[trigger] dot_edge(deps[k], name)) by {
            if k < deps.len() - 1 {
                assert(deps[k] == d0[k]);
                lemma_occurs_extend(dot_dep_edges(d0, name), e, dot_edge(deps[k], name));
            } else {
                lemma_occurs_whole(e);
                lemma_occurs_extend(e, dot_dep_edges(d0, name), e);
            }
        }
    }
}

proof fn lemma_source_edges(name: Seq<char>, srcs: Seq<Seq<char>>)
    ensures
        dot_source_edges(name, srcs).len() == source_edges_len(name, srcs),
        forall|k: int| 0 <= k < srcs.len() ==> occurs_in(dot_source_edges(name, srcs), #[trigger] dot_edge(name, srcs[k])),
    decreases srcs.len(),
{
    if srcs.len() > 0 {
        let s0 = srcs.drop_last();
        lemma_source_edges(name, s0);
        lemma_edge_len(name, srcs.last());
        let e = dot_edge(name, srcs.last());
        assert forall|k: int| 0 <= k < srcs.len() implies occurs_in(dot_source_edges(name, srcs), #[trigger] dot_edge(name, srcs[k])) by {
            if k < srcs.len() - 1 {
                assert(srcs[k] == s0[k]);
                lemma_occurs_extend(dot_source_edges(name, s0), e, dot_edge(name, srcs[k]));
            } else {
                lemma_occurs_whole(e);
                lemma_occurs_extend(e, dot_source_edges(name, s0), e);
            }
        }
    }
}

proof fn lemma_dot_body(g: Seq<NodeSpec>)
    ensures
        dot_body(g).len() == edges_len(g),
        forall|i: int, k: int|
            0 <= i < g.len() && 0 <= k < g[i].deps.len() ==> occurs_in(dot_body(g), #[trigger] dot_edge(g[i].deps[k], g[i].name)),
        forall|i: int, k: int|
            0 <= i < g.len() && 0 <= k < g[i].sources.len() ==> occurs_in(dot_body(g), #[trigger] dot_edge(g[i].name, g[i].sources[k])),
    decreases g.len(),
{
    if g.len() > 0 {
        let h = g.drop_last();
        let last = g.last();
        lemma_dot_body(h);
        lemma_dep_edges(last.deps, last.name);
        lemma_source_edges(last.name, last.sources);
        let b0 = dot_body(h);
        let de = dot_dep_edges(last.deps, last.name);
        let se = dot_source_edges(last.name, last.sources);
        assert(dot_body(g) == b0 + de + se);
        assert forall|i: int, k: int|
            0 <= i < g.len() && 0 <= k < g[i].deps.len() implies occurs_in(dot_body(g), #[trigger] dot_edge(g[i].deps[k], g[i].name)) by {
            let e = dot_edge(g[i].deps[k], g[i].name);
            if i < g.len() - 1 {
                assert(h[i] == g[i]);
                lemma_occurs_extend(b0, de, e);
                lemma_occurs_extend(b0 + de, se, e);
            } else {
                lemma_occurs_extend(de, b0, e);
                lemma_occurs_extend(b0 + de, se, e);
            }
        }
        assert forall|i: int, k: int|
            0 <= i < g.len() && 0 <= k < g[i].sources.len() implies occurs_in(dot_body(g), #[trigger] dot_edge(g[i].name, g[i].sources[k])) by {
            let e = dot_edge(g[i].name, g[i].sources[k]);
            if i < g.len() - 1 {
                assert(h[i] == g[i]);
                lemma_occurs_extend(b0, de, e);
                lemma_occurs_extend(b0 + de, se, e);
            } else {
                lemma_occurs_extend(se, b0 + de, e);
            }
        }
    }
}

/// The DOT text draws every edge and nothing more: for each target, a line
/// from each of its dependencies to it, one per listed dependency, and a
/// line from it to each of its sources; between the header and the closing
/// brace there is exactly as much text as those lines take together.
pub proof fn lemma_dot_draws_every_edge(g: Seq<NodeSpec>)
    ensures
        forall|i: int, k: int|
            0 <= i < g.len() && 0 <= k < g[i].deps.len() ==> occurs_in(
                dot_text(g),
                #[trigger] ("    \""@ + g[i].deps[k] + "\" -> \""@ + g[i].name + "\";\n"@),
            ),
        forall|i: int, k: int|
            0 <= i < g.len() && 0 <= k < g[i].sources.len() ==> occurs_in(
                dot_text(g),
                #[trigger] ("    \""@ + g[i].name + "\" -> \""@ + g[i].sources[k] + "\";\n"@),
            ),
        dot_text(g).len() == "digraph calmake {\n"@.len() + edges_len(g) + "}\n"@.len(),
        dot_text(g).subrange(0, "digraph calmake {\n"@.len() as int) == "digraph calmake {\n"@,
{
    lemma_dot_body(g);
    let h = "digraph calmake {\n"@;
    let f = "}\n"@;
    let b = dot_body(g);
    assert(dot_text(g) == h + b + f);
    assert forall|i: int, k: int|
        0 <= i < g.len() && 0 <= k < g[i].deps.len() implies occurs_in(
            dot_text(g),
            #[trigger] ("    \""@ + g[i].deps[k] + "\" -> \""@ + g[i].name + "\";\n"@),
        ) by {
        let e = dot_edge(g[i].deps[k], g[i].name);
        lemma_occurs_extend(b, h, e);
        lemma_occurs_extend(h + b, f, e);
    }
    assert forall|i: int, k: int|
        0 <= i < g.len() && 0 <= k < g[i].sources.len() implies occurs_in(
            dot_text(g),
            #[trigger] ("    \""@ + g[i].name + "\" -> \""@ + g[i].sources[k] + "\";\n"@),
        ) by {
        let e = dot_edge(g[i].name, g[i].sources[k]);
        lemma_occurs_extend(b, h, e);
        lemma_occurs_extend(h + b, f, e);
    }
    assert(dot_text(g).subrange(0, h.len() as int) =~= h);
}

} // verus!
