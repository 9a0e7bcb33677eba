use remote_codex_core::commands::{
    activation_steps, dedupe_paths, history_sync_options, hydrate_profiles, profile_by_id, root_label, stored_profile,
    stored_token, supplied_token, ActivationStep, StoredProfile,
};
use remote_codex_core::history_roots::CustomHistoryRoot;
use remote_codex_core::profile::CodexProfile;
use remote_codex_core::secrets::{InMemorySecretStore, SecretStore};
use remote_codex_core::RemoteCodexError;

fn profile(id: &str, name: &str) -> CodexProfile {
    CodexProfile {
        id: id.to_string(),
        name: name.to_string(),
        provider_name: name.to_string(),
        base_url: "https://jmrai.net/v1".to_string(),
        model: "gpt-5.5".to_string(),
        requires_openai_auth: true,
        keep_chatgpt_login: true,
        codex_home: None,
        created_at: "2026-05-17T00:00:00Z".to_string(),
        updated_at: "2026-05-17T00:00:00Z".to_string(),
    }
}

fn token_ready(profiles: &[StoredProfile], id: &str) -> bool {
    profiles
        .iter()
        .find(|profile| profile.profile.id == id)
        .map(|profile| profile.token_ready)
        .unwrap_or(false)
}

fn message(e: RemoteCodexError) -> String {
    match e {
        RemoteCodexError::Message(m) => m,
        other => panic!("unexpected error: {other:?}"),
    }
}

#[test]
fn hydrate_profiles_marks_key_presence_per_profile() {
    let mut secrets = InMemorySecretStore::default();
    secrets.set_token("jmrai", "secret-token").unwrap();

    let profiles = hydrate_profiles(
        vec![
            profile("jmrai", "JMRAPI"),
            profile("openrouter", "OpenRouter"),
        ],
        &secrets,
    )
    .unwrap();

    assert!(token_ready(&profiles, "jmrai"));
    assert!(!token_ready(&profiles, "openrouter"));
}

#[test]
fn hydrate_profiles_treats_blank_key_as_missing() {
    let mut secrets = InMemorySecretStore::default();
    secrets.set_token("jmrai", "   ").unwrap();

    let profiles = hydrate_profiles(vec![profile("jmrai", "JMRAPI")], &secrets).unwrap();

    assert!(!token_ready(&profiles, "jmrai"));
}

#[test]
fn hydrate_profiles_keeps_order_and_profiles() {
    let mut secrets = InMemorySecretStore::new();
    secrets.set_token("b", "tok").unwrap();
    let list = hydrate_profiles(vec![profile("a", "A"), profile("b", "B")], &secrets).unwrap();
    assert_eq!(list.len(), 2);
    assert_eq!(list[0].profile, profile("a", "A"));
    assert_eq!(list[1].profile, profile("b", "B"));
    assert!(!list[0].token_ready);
    assert!(list[1].token_ready);
}

#[test]
fn stored_profile_reads_token_presence() {
    assert!(stored_profile(profile("a", "A"), Some("t".to_string())).token_ready);
    assert!(!stored_profile(profile("a", "A"), Some(" \t\n".to_string())).token_ready);
    assert!(!stored_profile(profile("a", "A"), None).token_ready);
}

#[test]
fn supplied_token_is_trimmed_and_blank_is_none() {
    assert_eq!(supplied_token(Some("  abc \n")), Some("abc".to_string()));
    assert_eq!(supplied_token(Some("   ")), None);
    assert_eq!(supplied_token(Some("")), None);
    assert_eq!(supplied_token(None), None);
}

#[test]
fn stored_token_requires_a_usable_token() {
    assert_eq!(stored_token(Some(" tok ".to_string()), "JMRAI").unwrap(), " tok ");
    assert_eq!(
        message(stored_token(Some("  ".to_string()), "JMRAI").unwrap_err()),
        "missing provider token for JMRAI"
    );
    assert_eq!(
        message(stored_token(None, "Local Proxy").unwrap_err()),
        "missing provider token for Local Proxy"
    );
}

#[test]
fn profile_by_id_finds_first_match_or_fails() {
    let mut second = profile("a", "Second");
    second.model = "other".to_string();
    let list = vec![profile("x", "X"), profile("a", "First"), second];
    assert_eq!(profile_by_id(&list, "a").unwrap().name, "First");
    assert_eq!(message(profile_by_id(&list, "zz").unwrap_err()), "profile not found: zz");
}

#[test]
fn root_label_falls_back_to_trimmed_path() {
    assert_eq!(root_label(Some("  My Work "), "/w"), "My Work");
    assert_eq!(root_label(Some("   "), "  /work/p  "), "/work/p");
    assert_eq!(root_label(None, " /work/q"), "/work/q");
}

#[test]
fn history_sync_options_take_root_paths_in_order() {
    let roots = vec![
        CustomHistoryRoot::draft("B", "/b"),
        CustomHistoryRoot::draft("A", "/a"),
    ];
    let options = history_sync_options(&roots);
    assert_eq!(options.custom_workspace_roots, vec!["/b".to_string(), "/a".to_string()]);
}

#[test]
fn dedupe_paths_keeps_first_regardless_of_case() {
    let out = dedupe_paths(vec![
        r"C:\Program Files\Codex\Codex.exe".to_string(),
        r"c:\program files\codex\codex.exe".to_string(),
        r"C:\Other\codex.exe".to_string(),
        r"C:\PROGRAM FILES\CODEX\CODEX.EXE".to_string(),
    ]);
    assert_eq!(
        out,
        vec![
            r"C:\Program Files\Codex\Codex.exe".to_string(),
            r"C:\Other\codex.exe".to_string()
        ]
    );
    assert!(dedupe_paths(Vec::new()).is_empty());
}

#[test]
fn activation_steps_follow_the_options() {
    assert_eq!(
        activation_steps(Some("  sk-new "), true, false),
        vec![ActivationStep::KeepToken, ActivationStep::Backup, ActivationStep::ApplyAuth, ActivationStep::ApplyConfig, ActivationStep::ReadStatus, ActivationStep::SyncHistory, ActivationStep::OpenCodex]
    );
    assert_eq!(
        activation_steps(Some("   "), false, true),
        vec![ActivationStep::ReadToken, ActivationStep::Backup, ActivationStep::ApplyAuth, ActivationStep::ApplyConfig, ActivationStep::ReadStatus, ActivationStep::RestartCodex]
    );
    assert_eq!(
        activation_steps(None, false, false),
        vec![ActivationStep::ReadToken, ActivationStep::Backup, ActivationStep::ApplyAuth, ActivationStep::ApplyConfig, ActivationStep::ReadStatus, ActivationStep::OpenCodex]
    );
}
