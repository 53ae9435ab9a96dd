use calmake::cache::{
    hash_file_content, link_fingerprint, link_up_to_date, plan_target, source_fingerprint,
    target_fingerprint, to_hex, with_link_hash, record_build, BuildCache, BuildResult, SourceFacts,
};
use calmake::config::parse_config;
use calmake::graph::{BuildGraph, SourceEntry, TargetNode};
use calmake::toolchain::CompilerKind;

fn node() -> TargetNode {
    let cfg = parse_config(
        "target app {\nlanguage = c\noutput = bin/app\nsources = a.c b.c\ncflags = -O2 -g\nldflags = -lm\n}\n",
    )
    .unwrap();
    let found = vec![vec![SourceEntry::File, SourceEntry::File]];
    let g = BuildGraph::from_config(&cfg, &found).unwrap();
    calmake::graph::node_clone_shallow(&g.targets()[0])
}

#[test]
fn digests_are_blake3() {
    assert_eq!(
        to_hex(&hash_file_content(b"abc")),
        "6437b3ac38465133ffb63b75273a8db548c558465d79db03fd359c6cd5bd9d85"
    );
    assert_eq!(
        to_hex(&hash_file_content(b"")),
        "af1349b9f5f9a1a6a0404dea36dcc9499bcb25c9adc112b7cc9a93cae41f3262"
    );
    assert_eq!(to_hex(&[0x00, 0x0f, 0xa0, 0xff]), "000fa0ff");
}

#[test]
fn target_fingerprint_covers_settings_and_deps() {
    let n = node();
    let dep = hash_file_content(b"libcore");
    let mut h = blake3::Hasher::new();
    h.update(b"Exe");
    h.update(b"C");
    h.update(&dep);
    h.update(b"missing-dep-output");
    h.update(b"-O2");
    h.update(b"-g");
    h.update(b"-lm");
    let expect = h.finalize().to_hex().to_string();
    assert_eq!(target_fingerprint(&n, &vec![Some(dep), None]), expect);
}

#[test]
fn source_and_link_fingerprints() {
    let n = node();
    let facts = SourceFacts {
        digest: hash_file_content(b"int main(){}"),
        header_digests: vec![hash_file_content(b"#pragma once")],
        obj_exists: true,
        depfile_exists: true,
    };
    let mut h = blake3::Hasher::new();
    h.update(&facts.digest);
    h.update(&facts.header_digests[0]);
    h.update(b"C");
    h.update(b"Gpp");
    h.update(b"-O2");
    h.update(b"-g");
    assert_eq!(source_fingerprint(&n, CompilerKind::Gpp, &facts), h.finalize().to_hex().to_string());

    let obj = hash_file_content(b"obj");
    let mut h = blake3::Hasher::new();
    h.update(b"ClangCpp");
    h.update(b"Exe");
    h.update(b"bin/app");
    h.update(&obj);
    h.update(b"missing-obj");
    h.update(b"-lm");
    assert_eq!(
        link_fingerprint(CompilerKind::ClangCpp, &n, &vec![Some(obj), None], &vec![]),
        h.finalize().to_hex().to_string()
    );
}

fn facts(content: &[u8], present: bool) -> SourceFacts {
    SourceFacts {
        digest: hash_file_content(content),
        header_digests: vec![],
        obj_exists: present,
        depfile_exists: present,
    }
}

#[test]
fn first_build_compiles_then_nothing_changes() {
    let n = node();
    let mut cache = BuildCache::new();
    let old = cache.entry(&"app".to_string());
    let first = plan_target(&n, CompilerKind::Gpp, &old, &vec![], &vec![facts(b"a", false), facts(b"b", false)], false);
    assert_eq!(first.to_compile, vec![0, 1]);
    assert!(!first.up_to_date);
    let link = link_fingerprint(CompilerKind::Gpp, &n, &vec![None, None], &vec![]);
    assert!(!link_up_to_date(&old, &link, false));
    cache.store("app".to_string(), with_link_hash(first.entry, link.clone()));

    let old = cache.entry(&"app".to_string());
    assert_eq!(old.link_hash, link);
    let second = plan_target(&n, CompilerKind::Gpp, &old, &vec![], &vec![facts(b"a", true), facts(b"b", true)], true);
    assert!(second.to_compile.is_empty());
    assert!(second.up_to_date);
    assert!(link_up_to_date(&old, &link, true));

    let third = plan_target(&n, CompilerKind::Gpp, &old, &vec![], &vec![facts(b"a", true), facts(b"b2", true)], true);
    assert_eq!(third.to_compile, vec![1]);
    assert!(!third.up_to_date);

    let fourth = plan_target(&n, CompilerKind::ClangC, &old, &vec![], &vec![facts(b"a", true), facts(b"b", true)], true);
    assert_eq!(fourth.to_compile, vec![0, 1]);

    let fifth = plan_target(&n, CompilerKind::Gpp, &old, &vec![], &vec![facts(b"a", true), facts(b"b", false)], true);
    assert_eq!(fifth.to_compile, vec![1]);

    let sixth = plan_target(&n, CompilerKind::Gpp, &old, &vec![], &vec![facts(b"a", true), facts(b"b", true)], false);
    assert!(sixth.to_compile.is_empty());
    assert!(!sixth.up_to_date);
}

#[test]
fn cache_store_replaces_entries() {
    let mut cache = BuildCache::new();
    let n = node();
    let plan = plan_target(&n, CompilerKind::Gpp, &cache.entry(&"app".to_string()), &vec![], &vec![facts(b"a", true), facts(b"b", true)], true);
    assert_eq!(plan.entry.sources.len(), 2);
    assert_eq!(plan.entry.sources[0].0, "a.c");
    cache.store("app".to_string(), plan.entry);
    cache.store("lib".to_string(), with_link_hash(cache.entry(&"none".to_string()), "x".to_string()));
    cache.store("app".to_string(), with_link_hash(cache.entry(&"none".to_string()), "y".to_string()));
    assert_eq!(cache.targets.len(), 2);
    assert_eq!(cache.targets[0].0, "app");
    assert_eq!(cache.targets[0].1.link_hash, "y");
    assert!(cache.entry(&"missing".to_string()).target_hash.is_empty());
}

#[test]
fn record_build_keeps_cache_on_failure() {
    let n = node();
    let mut cache = BuildCache::new();
    cache.store("lib".to_string(), with_link_hash(cache.entry(&"none".to_string()), "L".to_string()));
    let plan = plan_target(&n, CompilerKind::Gpp, &cache.entry(&"app".to_string()), &vec![], &vec![facts(b"a", false), facts(b"b", false)], false);
    let meta = plan.entry.target_hash.clone();
    record_build(&mut cache, "app".to_string(), BuildResult::Failed);
    assert_eq!(cache.targets.len(), 1);
    assert!(cache.entry(&"app".to_string()).target_hash.is_empty());

    record_build(&mut cache, "app".to_string(), BuildResult::Built(plan, "F".to_string()));
    let e = cache.entry(&"app".to_string());
    assert_eq!(e.target_hash, meta);
    assert_eq!(e.link_hash, "F");
    let keys: Vec<&str> = e.sources.iter().map(|(k, _)| k.as_str()).collect();
    assert_eq!(keys, vec!["a.c", "b.c"]);
    assert_eq!(cache.entry(&"lib".to_string()).link_hash, "L");

    let again = plan_target(&n, CompilerKind::Gpp, &cache.entry(&"app".to_string()), &vec![], &vec![facts(b"a", true), facts(b"b", true)], true);
    assert!(again.up_to_date);
    record_build(&mut cache, "app".to_string(), BuildResult::UpToDate(again));
    let e2 = cache.entry(&"app".to_string());
    assert_eq!(e2.target_hash, meta);
    assert!(e2.link_hash.is_empty());
}
