use remote_codex_core::codex_auth::apply_chatgpt_auth_text;
use remote_codex_core::codex_config::{apply_provider_config_text, clear_remote_provider_config_text};
use remote_codex_core::codex_status::runtime_status_from_texts;
use remote_codex_core::profile::{validate_profile, CodexProfile};
use remote_codex_core::{RemoteCodexError, CODEX_PROVIDER_BUCKET_ID};

fn profile(id: &str) -> CodexProfile {
    CodexProfile {
        id: id.to_string(),
        name: "JMRAI".to_string(),
        provider_name: "JMRAI".to_string(),
        base_url: "https://jmrai.net/v1".to_string(),
        model: "gpt-5.5".to_string(),
        requires_openai_auth: true,
        keep_chatgpt_login: true,
        codex_home: None,
        created_at: "2026-05-16T00:00:00Z".to_string(),
        updated_at: "2026-05-16T00:00:00Z".to_string(),
    }
}

fn message(e: RemoteCodexError) -> String {
    match e {
        RemoteCodexError::Message(m) => m,
        other => panic!("unexpected error: {other:?}"),
    }
}

#[test]
fn config_update_preserves_existing_toml_and_writes_provider_block() {
    let text =
        apply_provider_config_text("approval_policy = \"never\"\n", &profile("jmrai"), "secret-token").unwrap();
    assert!(text.contains("approval_policy = \"never\""));
    assert!(text.contains(&format!("model_provider = \"{CODEX_PROVIDER_BUCKET_ID}\"")));
    assert!(text.contains("model = \"gpt-5.5\""));
    assert!(text.contains(&format!("[model_providers.{CODEX_PROVIDER_BUCKET_ID}]")));
    assert!(text.contains("name = \"JMRAI\""));
    assert!(text.contains("base_url = \"https://jmrai.net/v1\""));
    assert!(text.contains("wire_api = \"responses\""));
    assert!(text.contains("requires_openai_auth = true"));
    assert!(text.contains("experimental_bearer_token = \"secret-token\""));
}

#[test]
fn config_update_uses_stable_codex_provider_bucket_for_all_profiles() {
    let first = apply_provider_config_text("", &profile("jmrai"), "secret-token").unwrap();
    let mut local = profile("local-proxy");
    local.name = "Local Proxy".to_string();
    local.provider_name = "Local Proxy".to_string();
    local.base_url = "http://127.0.0.1:48760/v1".to_string();
    local.model = "gpt-5.4".to_string();
    let text = apply_provider_config_text(&first, &local, "local-token").unwrap();

    assert!(text.contains(&format!("model_provider = \"{CODEX_PROVIDER_BUCKET_ID}\"")));
    assert!(text.contains(&format!("[model_providers.{CODEX_PROVIDER_BUCKET_ID}]")));
    assert!(!text.contains("[model_providers.jmrai]"));
    assert!(!text.contains("[model_providers.local-proxy]"));
    assert!(text.contains("name = \"Local Proxy\""));
    assert!(text.contains("base_url = \"http://127.0.0.1:48760/v1\""));
    assert!(text.contains("experimental_bearer_token = \"local-token\""));
    assert!(!text.contains("secret-token"));
}

#[test]
fn config_update_preserves_unknown_fields_inside_stable_provider_bucket() {
    let existing = format!(
        r#"model_provider = "{CODEX_PROVIDER_BUCKET_ID}"

[model_providers.{CODEX_PROVIDER_BUCKET_ID}]
name = "Old Remote"
base_url = "https://old.example/v1"
custom_setting = "keep-me"
"#
    );
    let text = apply_provider_config_text(&existing, &profile("jmrai"), "secret-token").unwrap();
    assert!(text.contains("name = \"JMRAI\""));
    assert!(text.contains("base_url = \"https://jmrai.net/v1\""));
    assert!(text.contains("custom_setting = \"keep-me\""));
}

#[test]
fn config_update_keeps_other_provider_entries() {
    let existing = "model_provider = \"old\"\n\n[model_providers.old]\nname = \"Old\"\n";
    let text = apply_provider_config_text(existing, &profile("jmrai"), "t").unwrap();
    assert!(text.contains("[model_providers.old]"));
    assert!(text.contains("name = \"Old\""));
    assert!(!text.contains("model_provider = \"old\""));
}

#[test]
fn config_update_refuses_bad_profiles_before_reading_the_file() {
    let mut p = profile("jmrai");
    p.base_url = "http://example.com".to_string();
    let e = apply_provider_config_text("not = [valid", &p, "t").unwrap_err();
    assert_eq!(message(e), "base_url must be https:// or local 127.0.0.1");
}

#[test]
fn config_update_reports_invalid_toml() {
    let e = apply_provider_config_text("not = [valid", &profile("jmrai"), "t").unwrap_err();
    assert!(matches!(e, RemoteCodexError::Toml(_)));
}

#[test]
fn blank_config_counts_as_empty() {
    let text = apply_provider_config_text("  \n\t", &profile("jmrai"), "t").unwrap();
    assert!(text.contains("model = \"gpt-5.5\""));
}

#[test]
fn validate_profile_reports_each_rule() {
    let ok = profile("jmrai");
    assert!(validate_profile(&ok).is_ok());
    let mut p = ok.clone();
    p.id = "  ".to_string();
    assert_eq!(message(validate_profile(&p).unwrap_err()), "profile id is required");
    let mut p = ok.clone();
    p.id = "bad id".to_string();
    assert_eq!(
        message(validate_profile(&p).unwrap_err()),
        "profile id may only contain ASCII letters, numbers, '_' and '-'"
    );
    let mut p = ok.clone();
    p.name = "".to_string();
    assert_eq!(message(validate_profile(&p).unwrap_err()), "profile name is required");
    let mut p = ok.clone();
    p.provider_name = " ".to_string();
    assert_eq!(message(validate_profile(&p).unwrap_err()), "provider name is required");
    let mut p = ok.clone();
    p.base_url = "ftp://x".to_string();
    assert_eq!(
        message(validate_profile(&p).unwrap_err()),
        "base_url must be https:// or local 127.0.0.1"
    );
    let mut p = ok.clone();
    p.base_url = "http://127.0.0.1:8080/v1".to_string();
    p.model = "\n".to_string();
    assert_eq!(message(validate_profile(&p).unwrap_err()), "model is required");
}

#[test]
fn clear_removes_the_remote_provider_only() {
    let configured = apply_provider_config_text(
        "approval_policy = \"never\"\n\n[model_providers.old]\nname = \"Old\"\n",
        &profile("jmrai"),
        "secret-token",
    )
    .unwrap();
    let text = clear_remote_provider_config_text(&configured).unwrap();
    assert!(!text.contains("model_provider ="));
    assert!(!text.contains(CODEX_PROVIDER_BUCKET_ID));
    assert!(!text.contains("secret-token"));
    assert!(text.contains("approval_policy = \"never\""));
    assert!(text.contains("[model_providers.old]"));
}

#[test]
fn clear_drops_an_emptied_provider_table_and_keeps_other_providers_named() {
    let configured = apply_provider_config_text("", &profile("jmrai"), "t").unwrap();
    let text = clear_remote_provider_config_text(&configured).unwrap();
    assert!(!text.contains("model_providers"));
    let other = "model_provider = \"mine\"\n";
    assert!(clear_remote_provider_config_text(other).unwrap().contains("model_provider = \"mine\""));
    assert!(matches!(
        clear_remote_provider_config_text("[broken").unwrap_err(),
        RemoteCodexError::Toml(_)
    ));
}

#[test]
fn auth_update_only_forces_chatgpt_mode_and_null_api_key() {
    let existing =
        "{\n  \"auth_mode\": \"api_key\",\n  \"OPENAI_API_KEY\": \"sk-live\",\n  \"account_id\": \"keep\"\n}"
            .to_string();
    let text = apply_chatgpt_auth_text(Some(&existing)).unwrap();
    let value: serde_json::Value = serde_json::from_str(&text).unwrap();
    assert_eq!(value["auth_mode"], "chatgpt");
    assert!(value["OPENAI_API_KEY"].is_null());
    assert_eq!(value["account_id"], "keep");
    assert!(text.ends_with("}\n"));
}

#[test]
fn auth_update_creates_the_file_and_refuses_non_objects() {
    let text = apply_chatgpt_auth_text(None).unwrap();
    assert_eq!(text, "{\n  \"OPENAI_API_KEY\": null,\n  \"auth_mode\": \"chatgpt\"\n}\n");
    assert_eq!(
        message(apply_chatgpt_auth_text(Some("[1, 2]")).unwrap_err()),
        "auth.json must be a JSON object"
    );
    assert!(matches!(apply_chatgpt_auth_text(Some("{oops")).unwrap_err(), RemoteCodexError::Json(_)));
}

#[test]
fn runtime_status_reports_remote_unlock_requirements() {
    let config = apply_provider_config_text("", &profile("jmrai"), "secret-token").unwrap();
    let status = runtime_status_from_texts(
        Some(r#"{"auth_mode":"chatgpt","OPENAI_API_KEY":null}"#),
        Some(&config),
    )
    .unwrap();
    assert!(status.auth_mode_chatgpt);
    assert!(status.openai_api_key_null);
    assert_eq!(status.current_provider, CODEX_PROVIDER_BUCKET_ID);
    assert!(status.provider_configured);
    assert!(status.provider_requires_openai_auth);
    assert!(status.provider_has_bearer_token);
    assert!(status.ready_for_remote);
    assert_eq!(status.provider_name.as_deref(), Some("JMRAI"));
    assert_eq!(status.current_model.as_deref(), Some("gpt-5.5"));
}

#[test]
fn runtime_status_reports_missing_bearer_token_as_not_ready() {
    let config = format!(
        r#"model_provider = "{CODEX_PROVIDER_BUCKET_ID}"

[model_providers.{CODEX_PROVIDER_BUCKET_ID}]
name = "JMRAI"
base_url = "https://jmrai.net/v1"
requires_openai_auth = true
"#
    );
    let status = runtime_status_from_texts(
        Some(r#"{"auth_mode":"chatgpt","OPENAI_API_KEY":null}"#),
        Some(&config),
    )
    .unwrap();
    assert!(status.auth_mode_chatgpt);
    assert!(status.provider_requires_openai_auth);
    assert!(!status.provider_has_bearer_token);
    assert!(!status.ready_for_remote);
}

#[test]
fn activation_then_status_is_ready() {
    let auth = apply_chatgpt_auth_text(Some(r#"{"auth_mode":"api_key","OPENAI_API_KEY":"sk"}"#)).unwrap();
    let config = apply_provider_config_text("model = \"x\"\n", &profile("jmrai"), "tok").unwrap();
    let status = runtime_status_from_texts(Some(&auth), Some(&config)).unwrap();
    assert!(status.ready_for_remote);
    let cleared = clear_remote_provider_config_text(&config).unwrap();
    let status = runtime_status_from_texts(Some(&auth), Some(&cleared)).unwrap();
    assert!(!status.ready_for_remote);
    assert_eq!(status.current_provider, "");
    assert!(!status.provider_configured);
}

#[test]
fn runtime_status_without_files_and_with_bad_files() {
    let status = runtime_status_from_texts(None, None).unwrap();
    assert!(!status.auth_mode_chatgpt);
    assert!(!status.openai_api_key_null);
    assert_eq!(status.current_provider, "");
    assert_eq!(status.current_model, None);
    assert!(!status.ready_for_remote);
    assert!(matches!(runtime_status_from_texts(Some("{"), None).unwrap_err(), RemoteCodexError::Json(_)));
    assert!(matches!(
        runtime_status_from_texts(Some("{}"), Some("[x")).unwrap_err(),
        RemoteCodexError::Toml(_)
    ));
    let blank = runtime_status_from_texts(Some("{}"), Some("   ")).unwrap();
    assert_eq!(blank.current_provider, "");
}

#[test]
fn runtime_status_token_must_not_be_blank() {
    let config = apply_provider_config_text("", &profile("jmrai"), "   ").unwrap();
    let status = runtime_status_from_texts(
        Some(r#"{"auth_mode":"chatgpt","OPENAI_API_KEY":null}"#),
        Some(&config),
    )
    .unwrap();
    assert!(!status.provider_has_bearer_token);
    assert!(!status.ready_for_remote);
}

#[test]
fn auth_update_twice_is_auth_update_once() {
    let once = apply_chatgpt_auth_text(Some("{\"account_id\":\"keep\",\"auth_mode\":\"api_key\"}")).unwrap();
    let twice = apply_chatgpt_auth_text(Some(&once)).unwrap();
    assert_eq!(once, twice);
    assert_eq!(
        once,
        "{\n  \"OPENAI_API_KEY\": null,\n  \"account_id\": \"keep\",\n  \"auth_mode\": \"chatgpt\"\n}\n"
    );
}

#[test]
fn last_activation_wins() {
    let mut other = profile("other");
    other.provider_name = "Other".to_string();
    other.base_url = "https://other.example/v1".to_string();
    other.model = "m2".to_string();
    other.requires_openai_auth = false;
    let both = apply_provider_config_text(
        &apply_provider_config_text("", &profile("jmrai"), "first").unwrap(),
        &other,
        "second",
    )
    .unwrap();
    let only = apply_provider_config_text("", &other, "second").unwrap();
    let auth = Some(r#"{"auth_mode":"chatgpt","OPENAI_API_KEY":null}"#);
    assert_eq!(
        runtime_status_from_texts(auth, Some(&both)).unwrap(),
        runtime_status_from_texts(auth, Some(&only)).unwrap()
    );
    assert!(!both.contains("first"));
    assert!(both.contains("requires_openai_auth = false"));
}

#[test]
fn written_auth_text_reads_back_as_chatgpt_sign_in() {
    let text = apply_chatgpt_auth_text(Some("{\"OPENAI_API_KEY\":\"sk-old\",\"n\":0.1,\"t\":{\"a\":[1,2]}}")).unwrap();
    let value: serde_json::Value = serde_json::from_str(&text).unwrap();
    assert_eq!(value["auth_mode"], "chatgpt");
    assert!(value["OPENAI_API_KEY"].is_null());
    assert_eq!(value["t"]["a"][1], 2);
}
