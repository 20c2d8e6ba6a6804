use forge::config::{ImportMode, SshAuth, SshNode, SshNodeFile};
use forge::error::ForgeError;
use forge::store::SshNodeStore;

fn node(name: &str, host: &str) -> SshNode {
    SshNode {
        name: name.to_string(),
        host: host.to_string(),
        port: 22,
        user: "ubuntu".to_string(),
        auth: SshAuth::Agent { identities_only: false },
        labels: vec![],
    }
}

fn store() -> SshNodeStore {
    SshNodeStore::at("/tmp/forge-test/nodes.yaml".to_string())
}

fn names(file: &SshNodeFile) -> Vec<String> {
    file.nodes.iter().map(|n| n.name.clone()).collect()
}

#[test]
fn default_store_lives_under_home() {
    let s = SshNodeStore::default(Some("/home/u".to_string())).unwrap();
    assert_eq!(s.path(), "/home/u/.forge/providers/ssh/nodes.yaml");
    let s = SshNodeStore::default(Some("/home/u/".to_string())).unwrap();
    assert_eq!(s.path(), "/home/u/.forge/providers/ssh/nodes.yaml");
    let err = SshNodeStore::default(None).unwrap_err();
    assert_eq!(err.message(), "failed to locate home directory from HOME");
}

#[test]
fn missing_file_loads_empty() {
    assert!(store().load(None).unwrap().is_empty());
}

#[test]
fn invalid_file_does_not_load() {
    let file = SshNodeFile { nodes: vec![node("a", "h"), node("a", "h2")] };
    assert!(matches!(store().load(Some(file)).unwrap_err(), ForgeError::DuplicateName { .. }));
}

#[test]
fn add_appends_new_node() {
    let file = store().add(None, node("a", "h1"), false).unwrap();
    let file = store().add(Some(file), node("b", "h2"), false).unwrap();
    assert_eq!(names(&file), vec!["a", "b"]);
}

#[test]
fn add_existing_without_replace_fails() {
    let file = store().add(None, node("a", "h1"), false).unwrap();
    let err = store().add(Some(file), node("a", "h2"), false).unwrap_err();
    assert_eq!(err.message(), "SSH node already exists: a");
}

#[test]
fn add_existing_with_replace_overwrites_in_place() {
    let file = SshNodeFile { nodes: vec![node("a", "h1"), node("b", "h2")] };
    let file = store().add(Some(file), node("a", "h9"), true).unwrap();
    assert_eq!(names(&file), vec!["a", "b"]);
    assert_eq!(file.nodes[0].host, "h9");
}

#[test]
fn add_validates_node_first() {
    let bad_file = SshNodeFile { nodes: vec![node("a", "h"), node("a", "h")] };
    let err = store().add(Some(bad_file), node("x", ""), false).unwrap_err();
    assert_eq!(err.message(), "SSH node host is required for x");
}

#[test]
fn get_after_add_returns_node() {
    let file = store().add(None, node("a", "h1"), false).unwrap();
    let got = store().get(Some(file), "a").unwrap();
    assert_eq!(got.host, "h1");
}

#[test]
fn get_missing_fails() {
    let err = store().get(None, "nope").unwrap_err();
    assert_eq!(err.message(), "SSH node not found: nope");
}

#[test]
fn remove_drops_node() {
    let file = SshNodeFile { nodes: vec![node("a", "h1"), node("b", "h2"), node("c", "h3")] };
    let file = store().remove(Some(file), "b").unwrap();
    assert_eq!(names(&file), vec!["a", "c"]);
    let err = store().get(Some(file), "b").unwrap_err();
    assert!(matches!(err, ForgeError::NodeNotFound { .. }));
}

#[test]
fn remove_missing_fails() {
    let file = SshNodeFile { nodes: vec![node("a", "h1")] };
    assert_eq!(store().remove(Some(file), "z").unwrap_err().message(), "SSH node not found: z");
}

#[test]
fn save_checks_nodes() {
    assert!(store().save(vec![node("a", "h")]).is_ok());
    assert!(store().save(vec![node("a", "h"), node("a", "h")]).is_err());
    assert!(store().save(vec![]).unwrap().nodes.is_empty());
}

#[test]
fn import_merge_adds_sorted() {
    let existing = SshNodeFile { nodes: vec![node("m", "h1"), node("b", "h2")] };
    let incoming = SshNodeFile { nodes: vec![node("z", "h3"), node("a", "h4")] };
    let (report, saved) = store().import_file(incoming, Some(existing), ImportMode::Merge).unwrap();
    assert_eq!((report.imported, report.replaced, report.skipped), (2, 0, 0));
    assert_eq!(names(&saved.unwrap()), vec!["a", "b", "m", "z"]);
}

#[test]
fn import_merge_refuses_existing() {
    let existing = SshNodeFile { nodes: vec![node("a", "h1")] };
    let incoming = SshNodeFile { nodes: vec![node("b", "h3"), node("a", "h4")] };
    let err = store().import_file(incoming, Some(existing), ImportMode::Merge).unwrap_err();
    assert_eq!(err.message(), "SSH node already exists: a");
}

#[test]
fn import_replace_overwrites() {
    let existing = SshNodeFile { nodes: vec![node("a", "h1"), node("c", "h2")] };
    let incoming = SshNodeFile { nodes: vec![node("a", "new"), node("b", "h4")] };
    let (report, saved) = store().import_file(incoming, Some(existing), ImportMode::Replace).unwrap();
    assert_eq!((report.imported, report.replaced, report.skipped), (1, 1, 0));
    let saved = saved.unwrap();
    assert_eq!(names(&saved), vec!["a", "b", "c"]);
    assert_eq!(saved.nodes[0].host, "new");
}

#[test]
fn import_dry_run_writes_nothing() {
    let incoming = SshNodeFile { nodes: vec![node("a", "h"), node("b", "h")] };
    let (report, saved) = store().import_file(incoming, None, ImportMode::DryRun).unwrap();
    assert_eq!(report.imported, 2);
    assert!(saved.is_none());
}

#[test]
fn import_dry_run_refuses_existing_like_merge() {
    let existing = SshNodeFile { nodes: vec![node("a", "h1")] };
    let incoming = SshNodeFile { nodes: vec![node("a", "h2")] };
    assert!(matches!(
        store().import_file(incoming, Some(existing), ImportMode::DryRun).unwrap_err(),
        ForgeError::NodeExists { .. }
    ));
}

#[test]
fn import_validates_incoming() {
    let incoming = SshNodeFile { nodes: vec![node("a", "h"), node("a", "h")] };
    let err = store().import_file(incoming, None, ImportMode::Replace).unwrap_err();
    assert_eq!(err.message(), "duplicate SSH node name in import file: a");
}

#[test]
fn import_orders_by_code_point() {
    let incoming = SshNodeFile {
        nodes: vec![node("b", "h"), node("B", "h"), node("é", "h"), node("ab", "h"), node("a", "h")],
    };
    let (_, saved) = store().import_file(incoming, None, ImportMode::Merge).unwrap();
    assert_eq!(names(&saved.unwrap()), vec!["B", "a", "ab", "b", "é"]);
}

#[test]
fn forge_layout() {
    assert_eq!(SshNodeStore::forge_dir("/home/u"), "/home/u/.forge");
    assert_eq!(SshNodeStore::default_config(), "version: 1\nproviders:\n  ssh:\n    enabled: true\n");
}
