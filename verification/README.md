# remote_codex_core

A tool that points the Codex desktop client at a remote, OpenAI-compatible
provider while keeping ChatGPT sign-in, and repairs Codex's local history so
that every local thread stays visible under the provider in use.

The crate is written in Verus. `src/` is the verified library:

- `codex_config`, `codex_auth`, `codex_status`: the edits made to
  `config.toml` and `auth.json`, and the readiness report read from them,
  modelled as trees of settings (`toml_doc`, `json_value`, `tree`);
- `profile`, `secrets`, `commands`: provider profiles, where their tokens are
  kept, and the decisions behind the panel's commands;
- `history`, `global_state`, `history_roots`: the history repair (session
  files, session index, the desktop client's global state) and the workspace
  roots the user saves;
- `backup`: naming, listing and restoring backups;
- `codex_app`: reading process and install listings;
- `text`, `text_set`, `order`, `codex_paths`: text, ordered sets, stable
  sorting and the layout of a Codex home.

`app/` holds what touches the machine: files, the SQLite database, the
system credential store and the Codex processes. `tests/` runs the library
on concrete values.
