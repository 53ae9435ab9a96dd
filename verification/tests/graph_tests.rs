use calmake::config::parse_config;
use calmake::graph::{BuildGraph, GraphError, SourceEntry, Step};

fn files(cfg: &calmake::config::BuildConfig) -> Vec<Vec<SourceEntry>> {
    cfg.targets
        .iter()
        .map(|(_, t)| t.sources.iter().map(|_| SourceEntry::File).collect())
        .collect()
}

fn graph(src: &str) -> BuildGraph {
    let cfg = parse_config(src).unwrap();
    BuildGraph::from_config(&cfg, &files(&cfg)).unwrap()
}

const CHAIN: &str = "target app {\noutput = bin/app\nsources = main.c\ndeps = [core, util]\n}\n\
target core {\noutput = bin/libcore.a\nsources = core.c\nkind = staticlib\ndeps = util\n}\n\
target util {\noutput = bin/libutil.a\nsources = util.c\nkind = staticlib\n}\n";

#[test]
fn topo_sort_puts_dependencies_first() {
    let g = graph(CHAIN);
    let order = g.topo_sort().unwrap();
    assert_eq!(order, vec!["util".to_string(), "core".to_string(), "app".to_string()]);
}

#[test]
fn roots_are_targets_without_dependencies() {
    let g = graph(CHAIN);
    assert_eq!(g.root_targets(), vec!["util".to_string()]);
}

#[test]
fn cycle_is_refused() {
    let g = graph("target a {\noutput = a\nsources = a.c\ndeps = b\n}\ntarget b {\noutput = b\nsources = b.c\ndeps = a\n}\n");
    assert!(matches!(g.topo_sort(), Err(GraphError::CyclicDependency)));
    let g = graph("target a {\noutput = a\nsources = a.c\ndeps = a\n}\n");
    assert!(matches!(g.topo_sort(), Err(GraphError::CyclicDependency)));
}

#[test]
fn duplicate_dependency_is_counted_each_time() {
    let g = graph("target a {\noutput = a\nsources = a.c\ndeps = b b\n}\ntarget b {\noutput = b\nsources = b.c\n}\n");
    assert_eq!(g.topo_sort().unwrap(), vec!["b".to_string(), "a".to_string()]);
}

#[test]
fn missing_dependency_is_refused() {
    let cfg = parse_config("target a {\noutput = a\nsources = a.c\ndeps = ghost\n}\n").unwrap();
    match BuildGraph::from_config(&cfg, &files(&cfg)) {
        Err(GraphError::MissingDependency { target, dep }) => {
            assert_eq!(target, "a");
            assert_eq!(dep, "ghost");
        }
        other => panic!("{other:?}"),
    }
}

#[test]
fn directories_expand_to_found_sources() {
    let cfg = parse_config("target a {\noutput = a\nsources = src extra.c\n}\n").unwrap();
    let found = vec![vec![
        SourceEntry::Directory(vec!["src/a.c".to_string(), "src/b.cpp".to_string()]),
        SourceEntry::File,
    ]];
    let g = BuildGraph::from_config(&cfg, &found).unwrap();
    assert_eq!(
        g.targets()[0].sources,
        vec!["src/a.c".to_string(), "src/b.cpp".to_string(), "extra.c".to_string()]
    );
    let empty = vec![vec![SourceEntry::Directory(vec![]), SourceEntry::Directory(vec![])]];
    match BuildGraph::from_config(&cfg, &empty) {
        Err(GraphError::NoSources { target }) => assert_eq!(target, "a"),
        other => panic!("{other:?}"),
    }
}

#[test]
fn runnable_targets_follow_done_set() {
    let g = graph(CHAIN);
    let order = g.topo_sort().unwrap();
    assert_eq!(g.runnable(&order, &vec![]), vec!["util".to_string()]);
    assert_eq!(g.runnable(&order, &vec!["util".to_string()]), vec!["core".to_string()]);
    assert_eq!(
        g.runnable(&order, &vec!["util".to_string(), "core".to_string()]),
        vec!["app".to_string()]
    );
    assert!(g
        .runnable(&order, &vec!["util".to_string(), "core".to_string(), "app".to_string()])
        .is_empty());
}

#[test]
fn dot_lists_dependency_and_source_edges() {
    let g = graph("target a {\noutput = a\nsources = a.c\ndeps = b\n}\ntarget b {\noutput = b\nsources = b1.c b2.c\n}\n");
    assert_eq!(
        g.render_dot(),
        "digraph calmake {\n    \"b\" -> \"a\";\n    \"a\" -> \"a.c\";\n    \"b\" -> \"b1.c\";\n    \"b\" -> \"b2.c\";\n}\n"
    );
}

#[test]
fn clone_keeps_every_field() {
    let g = graph(CHAIN);
    let n = &g.targets()[0];
    let c = calmake::graph::node_clone_shallow(n);
    assert_eq!(c.name, n.name);
    assert_eq!(c.deps, n.deps);
    assert_eq!(c.sources, n.sources);
    assert_eq!(c.output, n.output);
}

#[test]
fn next_step_runs_ready_targets_then_finishes() {
    let g = graph(CHAIN);
    let order = g.topo_sort().unwrap();
    match g.next_step(&order, &vec![]) {
        Step::Run(ts) => assert_eq!(ts, vec!["util".to_string()]),
        other => panic!("{other:?}"),
    }
    let all = vec!["util".to_string(), "core".to_string(), "app".to_string()];
    assert!(matches!(g.next_step(&order, &all), Step::Finished));
    // Targets that wait on each other leave nothing to run.
    let g = graph("target a {\noutput = a\nsources = a.c\ndeps = b\n}\ntarget b {\noutput = b\nsources = b.c\ndeps = a\n}\n");
    let order = vec!["a".to_string(), "b".to_string()];
    assert!(matches!(g.next_step(&order, &vec![]), Step::Stalled));
}

#[test]
fn whole_run_builds_each_target_once_after_its_dependencies() {
    let g = graph("target app {\noutput = bin/app\nsources = main.c\ndeps = [core, util]\n}\n\
target core {\noutput = bin/libcore.a\nsources = core.c\nkind = staticlib\ndeps = util\n}\n\
target util {\noutput = bin/libutil.a\nsources = util.c\nkind = staticlib\n}\n\
target tool {\noutput = bin/tool\nsources = tool.c\n}\n");
    let order = g.topo_sort().unwrap();
    let mut done: Vec<String> = Vec::new();
    let mut batches: Vec<Vec<String>> = Vec::new();
    loop {
        match g.next_step(&order, &done) {
            Step::Finished => break,
            Step::Stalled => panic!("stalled"),
            Step::Run(ts) => {
                for t in &ts {
                    let node = g.targets().iter().find(|n| &n.name == t).unwrap();
                    for d in &node.deps {
                        assert!(done.contains(d));
                    }
                    assert!(!done.contains(t));
                }
                done.extend(ts.iter().cloned());
                batches.push(ts);
            }
        }
    }
    assert_eq!(done.len(), 4);
    assert_eq!(batches.len(), 3);
    assert_eq!(batches[0], vec!["util".to_string(), "tool".to_string()]);
}

#[test]
fn resolved_graph_has_sources_for_every_target() {
    let g = graph(CHAIN);
    assert!(g.targets().iter().all(|n| !n.sources.is_empty()));
}
