use remote_codex_core::codex_paths::expand_tilde;
use remote_codex_core::profile::{remove_profile, save_profile_into, upsert_profile, CodexProfile, ProfileStore};
use remote_codex_core::secrets::{InMemorySecretStore, SecretStore};
use remote_codex_core::{CodexPaths, RemoteCodexError};

fn profile(id: &str, name: &str) -> CodexProfile {
    CodexProfile {
        id: id.to_string(),
        name: name.to_string(),
        provider_name: name.to_string(),
        base_url: "https://jmrai.net/v1".to_string(),
        model: "gpt-5.5".to_string(),
        requires_openai_auth: true,
        keep_chatgpt_login: true,
        codex_home: None,
        created_at: String::new(),
        updated_at: " ".to_string(),
    }
}

#[test]
fn profile_store_keeps_token_out_of_metadata_and_secret_store_keeps_it_separate() {
    let mut secrets = InMemorySecretStore::default();
    let list = save_profile_into(Vec::new(), &profile("jmrai", "JMRAI")).unwrap();
    secrets.set_token(&list[0].id, "secret-token").unwrap();
    let raw = format!("{list:?}");
    assert!(raw.contains("JMRAI"));
    assert!(!raw.contains("secret-token"));
    assert_eq!(secrets.get_token("jmrai").unwrap().as_deref(), Some("secret-token"));
}

#[test]
fn upsert_stamps_replaces_and_sorts_by_name() {
    let list = upsert_profile(Vec::new(), &profile("b", "beta"), "NOW");
    assert_eq!(list[0].created_at, "NOW");
    assert_eq!(list[0].updated_at, "NOW");
    let list = upsert_profile(list, &profile("a", "Alpha"), "NOW2");
    assert_eq!(list.iter().map(|p| p.id.as_str()).collect::<Vec<_>>(), vec!["a", "b"]);
    let mut changed = profile("b", "Aardvark");
    changed.created_at = "KEEP".to_string();
    let list = upsert_profile(list, &changed, "NOW3");
    assert_eq!(list.len(), 2);
    assert_eq!(list[0].id, "b");
    assert_eq!(list[0].created_at, "KEEP");
    assert_eq!(list[0].updated_at, "NOW3");
}

#[test]
fn saving_an_invalid_profile_fails() {
    let mut p = profile("x", "X");
    p.model = String::new();
    match save_profile_into(Vec::new(), &p) {
        Err(RemoteCodexError::Message(m)) => assert_eq!(m, "model is required"),
        other => panic!("unexpected: {other:?}"),
    }
}

#[test]
fn removing_profiles_by_id() {
    let list = vec![profile("a", "A"), profile("b", "B")];
    let (left, removed) = remove_profile(list.clone(), "a");
    assert!(removed);
    assert_eq!(left, vec![profile("b", "B")]);
    let (same, removed) = remove_profile(list.clone(), "c");
    assert!(!removed);
    assert_eq!(same, list);
}

#[test]
fn secrets_set_get_delete() {
    let mut s = InMemorySecretStore::new();
    assert_eq!(s.get_token("a").unwrap(), None);
    s.set_token("a", "one").unwrap();
    s.set_token("b", "two").unwrap();
    s.set_token("a", "three").unwrap();
    assert_eq!(s.get_token("a").unwrap().as_deref(), Some("three"));
    assert_eq!(s.get_token("b").unwrap().as_deref(), Some("two"));
    s.delete_token("a").unwrap();
    assert_eq!(s.get_token("a").unwrap(), None);
    assert_eq!(s.get_token("b").unwrap().as_deref(), Some("two"));
    s.delete_token("missing").unwrap();
}

#[test]
fn profile_store_location() {
    let store = ProfileStore::new("/cfg/RemoteCodexAPI".to_string());
    assert_eq!(store.profiles_path(), "/cfg/RemoteCodexAPI/profiles.json");
}

#[test]
fn codex_paths_lay_out_the_home() {
    let p = CodexPaths::from_home("/home/u/.codex");
    assert_eq!(p.codex_home, "/home/u/.codex");
    assert_eq!(p.config_path, "/home/u/.codex/config.toml");
    assert_eq!(p.auth_path, "/home/u/.codex/auth.json");
    assert_eq!(p.db_path, "/home/u/.codex/state_5.sqlite");
    assert_eq!(p.sessions_dir, "/home/u/.codex/sessions");
    assert_eq!(p.session_index_path, "/home/u/.codex/session_index.jsonl");
    assert_eq!(p.global_state_path, "/home/u/.codex/.codex-global-state.json");
    assert_eq!(p.backup_dir, "/home/u/.codex/codex_profile_tray_backups");
}

#[test]
fn codex_home_is_resolved_with_tilde() {
    assert_eq!(expand_tilde("~", Some("/home/u")), "/home/u");
    assert_eq!(expand_tilde("~", None), "~");
    assert_eq!(expand_tilde("~/x/y", Some("/home/u")), "/home/u/x/y");
    assert_eq!(expand_tilde("~/x", None), "~/x");
    assert_eq!(expand_tilde("/abs", Some("/home/u")), "/abs");
    assert_eq!(CodexPaths::resolve_with_home(Some("  ~/c  "), Some("/h")).codex_home, "/h/c");
    assert_eq!(CodexPaths::resolve_with_home(Some("   "), Some("/h")).codex_home, "/h/.codex");
    assert_eq!(CodexPaths::resolve_with_home(None, None).codex_home, "./.codex");
    assert_eq!(CodexPaths::resolve(Some("/given")).codex_home, "/given");
}

#[test]
fn stores_live_in_remote_codex_api_under_their_directory() {
    let profiles = ProfileStore::in_dir("/home/u/.config");
    assert_eq!(profiles.config_dir, "/home/u/.config/RemoteCodexAPI");
    assert_eq!(profiles.profiles_path(), "/home/u/.config/RemoteCodexAPI/profiles.json");
    let roots = remote_codex_core::history_roots::HistoryRootStore::in_dir("/home/u/.config/");
    assert_eq!(roots.config_dir, "/home/u/.config/RemoteCodexAPI");
    assert_eq!(roots.roots_path(), "/home/u/.config/RemoteCodexAPI/history_roots.json");
    assert!(ProfileStore::default_store().config_dir.ends_with("RemoteCodexAPI"));
}

#[test]
fn tilde_paths_expand_under_the_home_directory() {
    assert_eq!(expand_tilde("~/work/codex", Some("/home/u")), "/home/u/work/codex");
    assert_eq!(expand_tilde("~/.codex", Some("/home/u/")), "/home/u/.codex");
    assert_eq!(expand_tilde("~", Some("/home/u")), "/home/u");
    assert_eq!(expand_tilde("~/.codex", None), "~/.codex");
    let paths = CodexPaths::resolve_with_home(None, Some("/home/u"));
    assert_eq!(paths.codex_home, "/home/u/.codex");
    assert_eq!(paths.backup_dir, "/home/u/.codex/codex_profile_tray_backups");
}
