//! Verified core of a tool that points the Codex desktop client at a remote,
//! OpenAI-compatible provider: profile validation, the edits made to Codex's
//! `config.toml` and `auth.json`, the readiness report, the repair of local
//! history metadata, saved workspace roots and backups.
use vstd::prelude::*;

pub mod text;
pub mod tree;
pub mod toml_doc;
pub mod json_value;
pub mod codex_paths;
pub mod order;
pub mod text_set;
pub mod profile;
pub mod codex_config;
pub mod codex_auth;
pub mod codex_status;
pub mod history_roots;
pub mod secrets;
pub mod history;
pub mod global_state;
pub mod backup;
pub mod commands;
pub mod codex_app;

pub use codex_paths::CodexPaths;
pub use profile::CodexProfile;

verus! {

/// The one provider entry of `config.toml` that this tool writes, whatever
/// profile is active.
pub const CODEX_PROVIDER_BUCKET_ID: &'static str = "remote-codex-api";

/// A display name for that entry.
pub const CODEX_PROVIDER_BUCKET_NAME: &'static str = "Remote Codex API";

/// What can go wrong in the library.
#[derive(Debug)]
pub enum RemoteCodexError {
    /// A JSON document could not be read or written.
    Json(serde_json::Error),
    /// A TOML document could not be read.
    Toml(toml_edit::TomlError),
    /// The system credential store refused a request.
    Keyring(String),
    /// A rule of the library was broken; the text says which.
    Message(String),
}

} // verus!
