use remote_codex_core::backup::{
    backup_files, backup_id, backup_manifest_text, backup_not_found, new_backup_record, record_from_manifest, restored_text,
    sanitize_label, sort_backups, split_first_line, BackupRecord,
};
use remote_codex_core::history::rewrite_session_meta;
use remote_codex_core::{CodexPaths, RemoteCodexError};

fn record(id: &str, created_at: &str) -> BackupRecord {
    BackupRecord {
        id: id.to_string(),
        label: "l".to_string(),
        created_at: created_at.to_string(),
        path: format!("/b/{id}"),
    }
}

#[test]
fn labels_keep_only_id_characters() {
    assert_eq!(sanitize_label("pre-activate"), "pre-activate");
    assert_eq!(sanitize_label("my backup #1_ok"), "mybackup1_ok");
    assert_eq!(sanitize_label("  !!! "), "backup");
    assert_eq!(sanitize_label(""), "backup");
}

#[test]
fn backup_ids_combine_time_and_label() {
    assert_eq!(backup_id("2026-05-16T01:02:03Z", "pre-activate"), "20260516-010203-pre-activate");
    assert_eq!(backup_id("2026-05-16T01:02:03Z", "?"), "20260516-010203-backup");
    let r = new_backup_record("/home/u/.codex/codex_profile_tray_backups", "manual history sync", "2026-01-02T03:04:05Z".to_string());
    assert_eq!(r.id, "20260102-030405-manualhistorysync");
    assert_eq!(r.label, "manual history sync");
    assert_eq!(r.created_at, "2026-01-02T03:04:05Z");
    assert_eq!(r.path, "/home/u/.codex/codex_profile_tray_backups/20260102-030405-manualhistorysync");
}

#[test]
fn manifests_are_written_and_read_back() {
    let r = record("20260516-010203-x", "2026-05-16T01:02:03Z");
    let text = backup_manifest_text(&r);
    assert_eq!(
        text,
        "{\n  \"createdAt\": \"2026-05-16T01:02:03Z\",\n  \"id\": \"20260516-010203-x\",\n  \"label\": \"l\"\n}\n"
    );
    let back = record_from_manifest(&text, "/b/20260516-010203-x".to_string()).unwrap();
    assert_eq!(back.id, r.id);
    assert_eq!(back.label, r.label);
    assert_eq!(back.created_at, r.created_at);
    assert_eq!(back.path, r.path);
    let partial = record_from_manifest("{\"id\": 5}", "/p".to_string()).unwrap();
    assert_eq!((partial.id.as_str(), partial.label.as_str(), partial.created_at.as_str()), ("", "", ""));
    assert!(matches!(record_from_manifest("nope", "/p".to_string()).unwrap_err(), RemoteCodexError::Json(_)));
}

#[test]
fn backups_are_listed_newest_first() {
    let sorted = sort_backups(vec![
        record("a", "2026-01-01T00:00:00Z"),
        record("b", "2026-03-01T00:00:00Z"),
        record("c", "2026-01-01T00:00:00Z"),
        record("d", "2026-02-01T00:00:00Z"),
    ]);
    assert_eq!(sorted.iter().map(|r| r.id.as_str()).collect::<Vec<_>>(), vec!["b", "d", "a", "c"]);
}

#[test]
fn first_lines_are_put_back() {
    assert_eq!(restored_text(Some("new\nrest\n"), "old"), "old\nrest\n");
    assert_eq!(restored_text(Some("new\r\nrest"), "old"), "old\r\nrest");
    assert_eq!(restored_text(Some("only"), "old"), "old");
    assert_eq!(restored_text(Some(""), "old"), "old\n");
    assert_eq!(restored_text(None, "old"), "old\n");
    assert_eq!(split_first_line("abc"), Some(("abc".to_string(), String::new(), String::new())));
    assert_eq!(split_first_line(""), None);
}

#[test]
fn backup_restore_returns_rollout_metadata_to_previous_state() {
    let original = "{\"type\":\"session_meta\",\"payload\":{\"id\":\"old-thread\",\"model_provider\":\"old\",\"model\":\"gpt-old\"}}\n{\"type\":\"event_msg\"}\n";
    let first_line = original.lines().next().unwrap_or_default().to_string();
    let synced = rewrite_session_meta(original, "jmrai").unwrap();
    assert!(synced.lines().next().unwrap().contains("\"model_provider\":\"jmrai\""));
    let restored = restored_text(Some(&synced), &first_line);
    assert_eq!(restored, original);
    assert!(restored.lines().next().unwrap().contains("\"model_provider\":\"old\""));
}

#[test]
fn missing_backups_are_reported() {
    match backup_not_found("20260101-000000-x") {
        RemoteCodexError::Message(m) => assert_eq!(m, "backup not found: 20260101-000000-x"),
        other => panic!("unexpected: {other:?}"),
    }
}

#[test]
fn backup_keeps_each_codex_file_under_its_own_name() {
    let paths = CodexPaths::from_home("/home/u/.codex");
    let files = backup_files(&paths);
    let expected = [
        ("config.toml", "/home/u/.codex/config.toml"),
        ("auth.json", "/home/u/.codex/auth.json"),
        ("state_5.sqlite", "/home/u/.codex/state_5.sqlite"),
        ("session_index.jsonl", "/home/u/.codex/session_index.jsonl"),
        (".codex-global-state.json", "/home/u/.codex/.codex-global-state.json"),
    ];
    assert_eq!(files.len(), expected.len());
    for ((name, live), (want_name, want_live)) in files.iter().zip(expected.iter()) {
        assert_eq!(name, want_name);
        assert_eq!(live, want_live);
    }
}
