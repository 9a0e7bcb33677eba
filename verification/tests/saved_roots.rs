use remote_codex_core::history_roots::{
    label_from_path, normalize_root, remove_root, root_path_key, save_root_at, save_root_into, slugify,
    unique_root_id, CustomHistoryRoot, HistoryRootStore,
};
use remote_codex_core::RemoteCodexError;

fn message(e: RemoteCodexError) -> String {
    match e {
        RemoteCodexError::Message(m) => m,
        other => panic!("unexpected error: {other:?}"),
    }
}

fn root(id: &str, label: &str, path: &str) -> CustomHistoryRoot {
    CustomHistoryRoot {
        id: id.to_string(),
        label: label.to_string(),
        path: path.to_string(),
        created_at: "2026-01-01T00:00:00Z".to_string(),
        updated_at: "2026-01-01T00:00:00Z".to_string(),
    }
}

#[test]
fn history_root_store_dedupes_roots_by_normalized_path() {
    let (roots, first) = save_root_into(
        Vec::new(),
        CustomHistoryRoot::draft("WSL Ubuntu", r"\\wsl.localhost\Ubuntu\home\dgsp\project\"),
    )
    .unwrap();
    let (roots, second) = save_root_into(
        roots,
        CustomHistoryRoot::draft("WSL Ubuntu renamed", r"\\WSL.LOCALHOST\Ubuntu\home\dgsp\project"),
    )
    .unwrap();

    assert_eq!(roots.len(), 1);
    assert_eq!(first.id, second.id);
    assert_eq!(roots[0].label, "WSL Ubuntu renamed");
    assert_eq!(roots[0].path, r"\\WSL.LOCALHOST\Ubuntu\home\dgsp\project");
}

#[test]
fn slugs_keep_ascii_letters_and_digits() {
    assert_eq!(slugify(r"\\wsl.localhost\Ubuntu\home\dgsp\project\"), "wsl-localhost-ubuntu-home-dgsp-project");
    assert_eq!(slugify("--Hello,  World!--"), "hello-world");
    assert_eq!(slugify("ÄÖÜ"), "");
    assert_eq!(slugify(&"a".repeat(60)).len(), 48);
    assert_eq!(slugify(""), "");
}

#[test]
fn labels_come_from_the_last_path_part() {
    assert_eq!(label_from_path("/work/project/"), "project");
    assert_eq!(label_from_path(r"C:\Users\me\code"), "code");
    assert_eq!(label_from_path("///"), "Workspace");
    assert_eq!(label_from_path("/work/ "), "Workspace");
    assert_eq!(label_from_path("plain"), "plain");
}

#[test]
fn path_keys_ignore_case_slashes_and_trailing_separators() {
    assert_eq!(root_path_key(r"  \\WSL.localhost\Ubuntu\Home\ "), "//wsl.localhost/ubuntu/home");
    assert_eq!(root_path_key("/Work/Proj//"), "/work/proj");
    assert_eq!(root_path_key(r"\\wsl.localhost\Ubuntu\home\dgsp\project\"), root_path_key(r"\\WSL.LOCALHOST\Ubuntu\home\dgsp\project"));
}

#[test]
fn normalizing_checks_the_path() {
    let n = normalize_root(root(" My Id ", "  ", "  /work/proj/ ")).unwrap();
    assert_eq!(n.id, "my-id");
    assert_eq!(n.label, "proj");
    assert_eq!(n.path, "/work/proj");
    assert_eq!(message(normalize_root(root("", "x", " / ")).unwrap_err()), "history root path is required");
    assert_eq!(
        message(normalize_root(root("", "x", "/a\nb")).unwrap_err()),
        "history root path cannot contain newlines"
    );
}

#[test]
fn new_ids_are_unique() {
    let roots = vec![root("work-proj", "a", "/x"), root("work-proj-2", "b", "/y")];
    assert_eq!(unique_root_id(&roots, "/work/proj"), "work-proj-3");
    assert_eq!(unique_root_id(&roots, "/other"), "other");
    assert_eq!(unique_root_id(&Vec::new(), "///"), "workspace-root");
}

#[test]
fn saving_adds_sorts_and_keeps_creation_time() {
    let (roots, a) = save_root_at(Vec::new(), CustomHistoryRoot::draft("Beta", "/b"), "T1").unwrap();
    assert_eq!(a.id, "b");
    assert_eq!(a.created_at, "T1");
    assert_eq!(a.updated_at, "T1");
    let (roots, _) = save_root_at(roots, CustomHistoryRoot::draft("alpha", "/a"), "T2").unwrap();
    assert_eq!(roots.iter().map(|r| r.label.as_str()).collect::<Vec<_>>(), vec!["alpha", "Beta"]);
    let (roots, again) = save_root_at(roots, CustomHistoryRoot::draft("", "/B/"), "T3").unwrap();
    assert_eq!(roots.len(), 2);
    assert_eq!(again.id, "b");
    assert_eq!(again.created_at, "T1");
    assert_eq!(again.updated_at, "T3");
    assert_eq!(again.label, "B");
    assert_eq!(
        message(save_root_at(roots, CustomHistoryRoot::draft("x", "  "), "T4").unwrap_err()),
        "history root path is required"
    );
}

#[test]
fn removing_roots_by_id() {
    let roots = vec![root("a", "A", "/a"), root("b", "B", "/b"), root("a", "A2", "/a2")];
    let (left, removed) = remove_root(roots.clone(), "a");
    assert!(removed);
    assert_eq!(left, vec![root("b", "B", "/b")]);
    let (same, removed) = remove_root(roots.clone(), "zz");
    assert!(!removed);
    assert_eq!(same, roots);
}

#[test]
fn store_file_location() {
    let store = HistoryRootStore::new("/cfg/RemoteCodexAPI".to_string());
    assert_eq!(store.roots_path(), "/cfg/RemoteCodexAPI/history_roots.json");
    assert!(HistoryRootStore::default_store().config_dir.ends_with("RemoteCodexAPI"));
}

#[test]
fn saved_draft_roots_keep_distinct_nonempty_ids() {
    let mut roots = Vec::new();
    let mut saved = Vec::new();
    for path in ["/a/b", "/a-b", "/A/B/", "/..", "/a_b"] {
        let (next, q) = save_root_at(roots, CustomHistoryRoot::draft("", path), "2026-02-02T00:00:00Z").unwrap();
        roots = next;
        assert!(roots.iter().any(|r| r.id == q.id && r.path == q.path));
        saved.push(q.id);
    }
    for (i, a) in roots.iter().enumerate() {
        assert!(!a.id.is_empty());
        for b in roots.iter().skip(i + 1) {
            assert_ne!(a.id, b.id);
        }
    }
    assert_eq!(saved[0], "a-b");
    assert_eq!(saved[1], "a-b-2");
    assert_eq!(saved[2], "a-b");
    assert_eq!(saved[3], "workspace-root");
    assert_eq!(saved[4], "a-b-3");
}
