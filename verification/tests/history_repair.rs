use remote_codex_core::global_state::{global_state_update, threads_with_session_files};
use remote_codex_core::history::{
    current_profile_from_config, is_session_file_name, iso_from_ms, merge_session_entries, missing_reason,
    read_session_index_entries, rewrite_session_meta, session_file_ids, session_file_updates,
    session_index_content, session_index_update, session_thread_id, split_first_line, status_of_history,
    status_when_missing, sync_result, thread_index_entry, thread_index_query, thread_ui_query,
    CurrentCodexProfile, HistorySyncOptions,
};
use remote_codex_core::{RemoteCodexError, CODEX_PROVIDER_BUCKET_ID};

fn session(id: &str, provider: &str, model: &str) -> String {
    format!(
        "{{\"type\":\"session_meta\",\"payload\":{{\"id\":\"{id}\",\"model_provider\":\"{provider}\",\"model\":\"{model}\"}}}}\n{{\"type\":\"event_msg\",\"timestamp\":\"2026-05-16T01:00:00Z\"}}\n"
    )
}

fn parse(text: &str) -> serde_json::Value {
    serde_json::from_str(text).unwrap()
}

fn strings(v: &[&str]) -> Vec<String> {
    v.iter().map(|s| s.to_string()).collect()
}

#[test]
fn current_profile_reads_provider_and_model() {
    let p = current_profile_from_config("model_provider = \" jmrai \"\nmodel = \" gpt-5.5 \"\n").unwrap();
    assert_eq!(p.provider, "jmrai");
    assert_eq!(p.model.as_deref(), Some("gpt-5.5"));
    let p = current_profile_from_config("# nothing\n").unwrap();
    assert_eq!(p.provider, "openai");
    assert_eq!(p.model, None);
    let p = current_profile_from_config("model = \"  \"\n").unwrap();
    assert_eq!(p.model, None);
    assert!(matches!(current_profile_from_config("model = ").unwrap_err(), RemoteCodexError::Toml(_)));
}

#[test]
fn missing_reason_names_missing_files() {
    assert_eq!(missing_reason("/h/config.toml", true, "/h/state_5.sqlite", true), None);
    assert_eq!(
        missing_reason("/h/config.toml", false, "/h/state_5.sqlite", false).as_deref(),
        Some("missing /h/config.toml, /h/state_5.sqlite")
    );
    assert_eq!(
        missing_reason("/h/config.toml", false, "/h/state_5.sqlite", true).as_deref(),
        Some("missing /h/config.toml")
    );
    assert_eq!(
        missing_reason("/h/config.toml", true, "/h/state_5.sqlite", false).as_deref(),
        Some("missing /h/state_5.sqlite")
    );
}

#[test]
fn statuses_and_results_carry_their_inputs() {
    let missing = status_when_missing("missing x".to_string(), 3, 4);
    assert!(missing.ok && !missing.ready);
    assert_eq!(missing.reason.as_deref(), Some("missing x"));
    assert_eq!((missing.session_file_count, missing.session_index_count), (3, 4));
    let profile = CurrentCodexProfile { provider: "jmrai".to_string(), model: Some("m".to_string()) };
    let status = status_of_history(profile.clone(), Some((5, 2)), 1, 2);
    assert!(status.ready && status.reason.is_none());
    assert_eq!((status.total_threads, status.mismatched_provider_threads), (5, 2));
    assert_eq!(status.mismatched_model_threads, None);
    let no_table = status_of_history(profile.clone(), None, 0, 0);
    assert_eq!(no_table.reason.as_deref(), Some("missing threads table"));
    let result = sync_result(profile, 2, 1, true, false);
    assert!(result.ok);
    assert_eq!(result.current_provider, "jmrai");
    assert_eq!((result.updated_database_rows, result.updated_session_files), (2, 1));
    assert!(result.updated_session_index && !result.updated_global_state);
    assert!(HistorySyncOptions::default().custom_workspace_roots.is_empty());
}

#[test]
fn session_meta_is_rewritten_for_the_current_provider() {
    let text = session("old-thread", "old", "gpt-old");
    let new = rewrite_session_meta(&text, "jmrai").unwrap();
    assert_eq!(
        new,
        "{\"payload\":{\"id\":\"old-thread\",\"model\":\"gpt-old\",\"model_provider\":\"jmrai\"},\"type\":\"session_meta\"}\n{\"type\":\"event_msg\",\"timestamp\":\"2026-05-16T01:00:00Z\"}\n"
    );
    assert_eq!(rewrite_session_meta(&new, "jmrai"), None);
    assert_eq!(rewrite_session_meta(&session("a", "jmrai", "m"), "jmrai"), None);
    assert_eq!(rewrite_session_meta("", "jmrai"), None);
    assert_eq!(rewrite_session_meta("not json\n", "jmrai"), None);
    assert_eq!(rewrite_session_meta("{\"type\":\"event_msg\",\"payload\":{}}\n", "jmrai"), None);
    assert_eq!(rewrite_session_meta("{\"type\":\"session_meta\",\"payload\":[1]}\n", "jmrai"), None);
}

#[test]
fn session_meta_rewrite_keeps_line_endings() {
    let crlf = "{\"type\":\"session_meta\",\"payload\":{}}\r\nrest\r\n";
    assert_eq!(
        rewrite_session_meta(crlf, "p").unwrap(),
        "{\"payload\":{\"model_provider\":\"p\"},\"type\":\"session_meta\"}\r\nrest\r\n"
    );
    let unended = "{\"type\":\"session_meta\",\"payload\":{\"model_provider\":\"x\"}}";
    assert_eq!(
        rewrite_session_meta(unended, "p").unwrap(),
        "{\"payload\":{\"model_provider\":\"p\"},\"type\":\"session_meta\"}\n"
    );
}

#[test]
fn first_line_split_prefers_crlf_then_lf_then_cr() {
    let split = |t: &str| split_first_line(t).map(|(a, b, c)| (a, b, c));
    assert_eq!(split("a\nb\r\nc"), Some(("a\nb".to_string(), "\r\n".to_string(), "c".to_string())));
    assert_eq!(split("a\rb\nc"), Some(("a\rb".to_string(), "\n".to_string(), "c".to_string())));
    assert_eq!(split("a\rb"), Some(("a".to_string(), "\r".to_string(), "b".to_string())));
    assert_eq!(split("abc"), Some(("abc".to_string(), "\n".to_string(), String::new())));
    assert_eq!(split(""), None);
}

#[test]
fn session_ids_and_updates_over_files() {
    assert_eq!(session_thread_id(&session("t1", "p", "m")).as_deref(), Some("t1"));
    assert_eq!(session_thread_id("{\"type\":\"other\",\"payload\":{\"id\":\"x\"}}\n"), None);
    let files = vec![
        ("a.jsonl".to_string(), Some(session("a", "old", "m"))),
        ("b.jsonl".to_string(), None),
        ("c.jsonl".to_string(), Some(session("c", "new", "m"))),
        ("d.jsonl".to_string(), Some("garbage".to_string())),
    ];
    let updates = session_file_updates(&files, "new");
    assert_eq!(updates.len(), 1);
    assert_eq!(updates[0].0, "a.jsonl");
    assert!(updates[0].1.starts_with("{\"payload\":{\"id\":\"a\",\"model\":\"m\",\"model_provider\":\"new\"}"));
    let texts: Vec<Option<String>> = files.into_iter().map(|(_, t)| t).collect();
    assert_eq!(session_file_ids(&texts), strings(&["a", "c"]));
}

#[test]
fn session_file_names() {
    assert!(is_session_file_name("rollout-2026-05-16T00-00-00-old-thread.jsonl"));
    assert!(!is_session_file_name("rollout-x.json"));
    assert!(!is_session_file_name("session-x.jsonl"));
    assert!(is_session_file_name("rollout-.jsonl"));
}

#[test]
fn index_entries_are_read_line_by_line() {
    let text = "{\"id\":\"a\"}\n\n   \nnot json\n{\"x\":1}\r\n{\"id\":\"b\",\"thread_name\":\"B\"}";
    let entries = read_session_index_entries(text);
    assert_eq!(entries.len(), 2);
    assert_eq!(entries[0]["id"], "a");
    assert_eq!(entries[1]["thread_name"], "B");
    assert!(read_session_index_entries("").is_empty());
}

#[test]
fn iso_times_clamp_to_the_epoch() {
    assert_eq!(iso_from_ms(0), "1970-01-01T00:00:00Z");
    assert_eq!(iso_from_ms(-5), "1970-01-01T00:00:00Z");
    assert_eq!(iso_from_ms(100_000), "1970-01-01T00:01:40Z");
    assert_eq!(iso_from_ms(1_700_000_000_000), "2023-11-14T22:13:20Z");
    assert_eq!(iso_from_ms(i64::MAX), "1970-01-01T00:00:00Z");
}

#[test]
fn thread_index_entries_pick_their_time_and_name() {
    let e = thread_index_entry("t".to_string(), Some("Title".to_string()), None, Some(100), Some(100_000));
    assert_eq!(e, parse("{\"id\":\"t\",\"thread_name\":\"Title\",\"updated_at\":\"1970-01-01T00:01:40Z\"}"));
    let e = thread_index_entry("t".to_string(), Some(String::new()), None, Some(200), None);
    assert_eq!(e, parse("{\"id\":\"t\",\"thread_name\":\"t\",\"updated_at\":\"1970-01-01T00:03:20Z\"}"));
    let e = thread_index_entry("t".to_string(), None, Some(1_000), Some(200), Some(300));
    assert_eq!(e["updated_at"], "1970-01-01T00:00:01Z");
}

#[test]
fn queries_follow_the_table_columns() {
    let all = strings(&["id", "title", "rollout_path", "updated_at", "updated_at_ms", "archived", "cwd"]);
    assert_eq!(
        thread_index_query(&all),
        "SELECT id, title, rollout_path, updated_at, updated_at_ms FROM threads WHERE archived = 0 ORDER BY COALESCE(updated_at_ms, updated_at * 1000, 0) ASC, id ASC"
    );
    assert_eq!(
        thread_index_query(&strings(&["id"])),
        "SELECT id, id AS title, '' AS rollout_path, 0 AS updated_at, 0 AS updated_at_ms FROM threads  ORDER BY id ASC"
    );
    assert_eq!(thread_ui_query(&all), "SELECT id, cwd FROM threads WHERE archived = 0 ORDER BY id ASC");
    assert_eq!(thread_ui_query(&strings(&["id"])), "SELECT id, '' AS cwd FROM threads  ORDER BY id ASC");
}

#[test]
fn history_sync_skips_database_threads_without_session_files() {
    let db = vec![
        thread_index_entry("real-thread".to_string(), Some("Real Thread".to_string()), None, Some(100), Some(100_000)),
        thread_index_entry(
            "empty-project".to_string(),
            Some("Empty Project".to_string()),
            None,
            Some(200),
            Some(200_000),
        ),
    ];
    let existing = "{\"id\":\"empty-project\",\"thread_name\":\"Empty Project\",\"updated_at\":\"1970-01-01T00:00:00Z\"}\n";
    let file_ids = strings(&["real-thread"]);
    let new_index = session_index_update(&db, existing, &file_ids).unwrap();
    assert!(new_index.contains("\"id\":\"real-thread\""));
    assert!(!new_index.contains("\"id\":\"empty-project\""));

    let rows = vec![
        ("empty-project".to_string(), "/work/empty".to_string()),
        ("real-thread".to_string(), "/work/real".to_string()),
    ];
    let entries = threads_with_session_files(&rows, &file_ids);
    assert_eq!(entries, vec![("real-thread".to_string(), "/work/real".to_string())]);
    let state = "{\n  \"thread-workspace-root-hints\": {\n    \"empty-project\": \"/work/empty\"\n  },\n  \"project-order\": [\"/work/empty\"],\n  \"electron-saved-workspace-roots\": [\"/work/empty\"],\n  \"projectless-thread-ids\": [\"empty-project\"]\n}";
    let new_state = global_state_update(Some(state), &entries, &Vec::new()).unwrap().unwrap();
    assert!(new_state.contains("/work/real"));
    assert!(!new_state.contains("/work/empty"));
    assert!(!new_state.contains("empty-project"));
}

#[test]
fn index_merge_updates_listed_entries_and_keeps_their_other_fields() {
    let db = vec![thread_index_entry("a".to_string(), Some("New".to_string()), None, None, Some(1000))];
    let existing = read_session_index_entries(
        "{\"id\":\"a\",\"thread_name\":\"Old\",\"pinned\":true}\n{\"id\":\"b\",\"thread_name\":\"B\"}\n{\"id\":\"b\",\"thread_name\":\"B2\"}\n{\"id\":\"c\"}\n",
    );
    let merged = merge_session_entries(&db, &existing, &strings(&["a", "b"]));
    assert_eq!(merged.len(), 2);
    assert_eq!(
        merged[0],
        parse("{\"id\":\"a\",\"thread_name\":\"New\",\"pinned\":true,\"updated_at\":\"1970-01-01T00:00:01Z\"}")
    );
    assert_eq!(merged[1], parse("{\"id\":\"b\",\"thread_name\":\"B\"}"));
    assert_eq!(
        session_index_content(&merged),
        "{\"id\":\"a\",\"pinned\":true,\"thread_name\":\"New\",\"updated_at\":\"1970-01-01T00:00:01Z\"}\n{\"id\":\"b\",\"thread_name\":\"B\"}\n"
    );
    assert_eq!(session_index_content(&Vec::new()), "");
}

#[test]
fn index_update_is_none_when_nothing_changes() {
    let db = vec![thread_index_entry("a".to_string(), Some("A".to_string()), None, None, Some(0))];
    let ids = strings(&["a"]);
    let first = session_index_update(&db, "", &ids).unwrap();
    assert_eq!(first, "{\"id\":\"a\",\"thread_name\":\"A\",\"updated_at\":\"1970-01-01T00:00:00Z\"}\n");
    assert_eq!(session_index_update(&db, &first, &ids), None);
    assert_eq!(session_index_update(&Vec::new(), "", &ids), None);
}

#[test]
fn history_sync_includes_user_custom_workspace_roots() {
    let entries = vec![("real-thread".to_string(), "/work/real".to_string())];
    let roots = vec![
        r"\\wsl.localhost\Ubuntu\home\dgsp\project".to_string(),
        "/Users/dgsp/Documents/custom".to_string(),
    ];
    let global_state = global_state_update(Some("{}"), &entries, &roots).unwrap().unwrap();
    assert!(global_state.contains(r"\\\\wsl.localhost\\Ubuntu\\home\\dgsp\\project"));
    assert!(global_state.contains("/Users/dgsp/Documents/custom"));
    assert!(global_state.contains("/work/real"));
}

#[test]
fn global_state_lists_sorted_unique_roots_and_projectless_threads() {
    let entries = vec![
        ("t1".to_string(), "/w/b".to_string()),
        ("t2".to_string(), "  ".to_string()),
        ("t3".to_string(), "/w/b".to_string()),
        ("t4".to_string(), "/w/a".to_string()),
        ("t4".to_string(), String::new()),
    ];
    let roots = vec!["  /w/c/ ".to_string(), " \\ ".to_string(), "/w/a".to_string()];
    let text = global_state_update(Some("{\"keep\":1,\"project-order\":[\"x\"]}"), &entries, &roots)
        .unwrap()
        .unwrap();
    assert!(text.ends_with("}\n"));
    let expected = parse(
        "{\"keep\":1,\"electron-saved-workspace-roots\":[\"/w/a\",\"/w/b\",\"/w/c\"],\"project-order\":[\"/w/a\",\"/w/b\",\"/w/c\"],\"projectless-thread-ids\":[\"t2\",\"t4\"],\"thread-workspace-root-hints\":{\"t1\":\"/w/b\",\"t3\":\"/w/b\",\"t4\":\"/w/a\"}}",
    );
    assert_eq!(parse(&text), expected);
    assert_eq!(global_state_update(Some(&text), &entries, &roots).unwrap(), None);
}

#[test]
fn global_state_starts_over_from_non_objects_and_refuses_bad_json() {
    let text = global_state_update(Some("[1, 2]"), &Vec::new(), &Vec::new()).unwrap().unwrap();
    assert_eq!(
        parse(&text),
        parse("{\"electron-saved-workspace-roots\":[],\"project-order\":[],\"projectless-thread-ids\":[],\"thread-workspace-root-hints\":{}}")
    );
    assert!(global_state_update(None, &Vec::new(), &Vec::new()).unwrap().is_some());
    assert!(matches!(
        global_state_update(Some("{broken"), &Vec::new(), &Vec::new()).unwrap_err(),
        RemoteCodexError::Json(_)
    ));
}

#[test]
fn provider_bucket_constant_is_stable() {
    assert_eq!(CODEX_PROVIDER_BUCKET_ID, "remote-codex-api");
}

#[test]
fn rewritten_session_files_need_no_second_rewrite() {
    for text in [
        "{\"type\":\"session_meta\",\"payload\":{\"id\":\"t1\",\"model_provider\":\"openai\",\"n\":0.1}}\r\n{\"x\":1}\r\n",
        "{\"type\":\"session_meta\",\"payload\":{\"id\":\"t2\"}}\n{\"x\":\"a\\r\\nb\"}\n",
        "{\"type\":\"session_meta\",\"payload\":{\"id\":\"t3\",\"note\":\"line\\nbreak\"}}",
    ] {
        let once = rewrite_session_meta(text, "remote").expect("first rewrite");
        assert!(once.contains("\"model_provider\":\"remote\""));
        assert_eq!(rewrite_session_meta(&once, "remote"), None);
    }
}
