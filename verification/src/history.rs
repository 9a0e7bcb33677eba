//! Local history: which provider Codex is set to, what its history files
//! say, and how they are brought in line so that every local thread shows
//! under the current provider.
use vstd::prelude::*;

use chrono::TimeZone;

use crate::codex_status::str_node;
use crate::json_value::{
    get_str, json_clone, json_get, json_insert, json_is_object, json_object, json_parse, json_parsed,
    json_keys, json_string, json_to_compact, json_compact_text, json_tree, key_path, member, member_str, str_value,
    empty_object, JsonNode, JsonSeg, JsonTree,
};
use crate::text::{
    chars_of, find, find_in, is_blank, lines, lines_of, opt_string, replacement, str_trim, string_of, trim, blank,
};
use crate::toml_doc::{get1, item_text, toml_parse, toml_parsed, toml_tree, TomlTree};
use crate::tree::{graft, lemma_single_prefix, node_at, subtree};
use crate::RemoteCodexError;

verus! {

/// The provider Codex would use when its configuration names none.
pub const DEFAULT_PROVIDER: &'static str = "openai";

/// The provider and model `config.toml` selects.
#[derive(Clone, Debug)]
pub struct CurrentCodexProfile {
    pub provider: String,
    pub model: Option<String>,
}

/// What the history files say, before any change.
#[derive(Clone, Debug)]
pub struct HistoryStatus {
    pub ok: bool,
    pub ready: bool,
    pub reason: Option<String>,
    pub current_provider: String,
    pub current_model: Option<String>,
    pub total_threads: i64,
    pub mismatched_provider_threads: i64,
    pub mismatched_model_threads: Option<i64>,
    pub session_file_count: usize,
    pub session_index_count: usize,
}

/// What a history repair changed.
#[derive(Clone, Debug)]
pub struct HistorySyncResult {
    pub ok: bool,
    pub current_provider: String,
    pub current_model: Option<String>,
    pub updated_database_rows: usize,
    pub updated_session_files: usize,
    pub updated_session_index: bool,
    pub updated_global_state: bool,
}

/// Settings of a history repair.
#[derive(Clone, Debug)]
pub struct HistorySyncOptions {
    /// Workspace roots the user added, listed as projects even without
    /// threads.
    pub custom_workspace_roots: Vec<String>,
}

impl Default for HistorySyncOptions {
    fn default() -> (r: Self)
        ensures
            r.custom_workspace_roots@.len() == 0,
    {
        HistorySyncOptions { custom_workspace_roots: Vec::new() }
    }
}

// ---------------------------------------------------------------------------
// The current provider
// ---------------------------------------------------------------------------

/// The provider and model of the configuration `t`: `model_provider`
/// trimmed (`openai` where there is none), and `model` trimmed where it is
/// not empty then.
pub open spec fn current_of(t: TomlTree, p: CurrentCodexProfile) -> bool {
    &&& p.provider@ == trim(
        match str_node(t, seq!["model_provider"@]) {
            Some(s) => s,
            None => DEFAULT_PROVIDER@,
        },
    )
    &&& opt_string(p.model) == match str_node(t, seq!["model"@]) {
        Some(s) if trim(s).len() > 0 => Some(trim(s)),
        _ => None,
    }
}

/// Reads the current provider and model from the text of `config.toml`.
pub fn current_profile_from_config(text: &str) -> (r: Result<CurrentCodexProfile, RemoteCodexError>)
    ensures
        match toml_parsed(text@) {
            None => r matches Err(RemoteCodexError::Toml(_)),
            Some(t) => r matches Ok(p) && current_of(t, p),
        },
{
    let doc = match toml_parse(text) {
        Ok(d) => d,
        Err(e) => {
            return Err(RemoteCodexError::Toml(e));
        },
    };
    let ghost t = toml_tree(doc);
    proof {
        reveal_strlit("model_provider");
        reveal_strlit("model");
        assert(seq!["model_provider"@] + Seq::<Seq<char>>::empty() =~= seq!["model_provider"@]);
        assert(seq!["model"@] + Seq::<Seq<char>>::empty() =~= seq!["model"@]);
    }
    let provider_raw = match item_text(get1(&doc, "model_provider")) {
        Some(s) => s,
        None => DEFAULT_PROVIDER.to_string(),
    };
    let provider = str_trim(provider_raw.as_str()).to_string();
    let model = match item_text(get1(&doc, "model")) {
        Some(s) => {
            let m = str_trim(s.as_str()).to_string();
            if m.unicode_len() > 0 {
                Some(m)
            } else {
                None
            }
        },
        None => None,
    };
    Ok(CurrentCodexProfile { provider, model })
}

// ---------------------------------------------------------------------------
// Status
// ---------------------------------------------------------------------------

/// Why history cannot be read: `missing` and the paths of the files that do
/// not exist, or `None` where both exist.
pub open spec fn missing_text(config_path: Seq<char>, config_exists: bool, db_path: Seq<char>, db_exists: bool) -> Option<
    Seq<char>,
> {
    if config_exists && db_exists {
        None
    } else if !config_exists && !db_exists {
        Some("missing "@ + config_path + ", "@ + db_path)
    } else if !config_exists {
        Some("missing "@ + config_path)
    } else {
        Some("missing "@ + db_path)
    }
}

pub fn missing_reason(config_path: &str, config_exists: bool, db_path: &str, db_exists: bool) -> (r: Option<String>)
    ensures
        opt_string(r) == missing_text(config_path@, config_exists, db_path@, db_exists),
{
    if config_exists && db_exists {
        return None;
    }
    let mut text = "missing ".to_string();
    if !config_exists {
        text.append(config_path);
        if !db_exists {
            text.append(", ");
            text.append(db_path);
        }
    } else {
        text.append(db_path);
    }
    Some(text)
}

/// The status where a history file is missing: nothing can be counted.
pub fn status_when_missing(reason: String, session_file_count: usize, session_index_count: usize) -> (r: HistoryStatus)
    ensures
        r.ok && !r.ready,
        r.reason == Some(reason),
        r.current_provider@ == Seq::<char>::empty(),
        r.current_model is None,
        r.total_threads == 0 && r.mismatched_provider_threads == 0,
        r.mismatched_model_threads is None,
        r.session_file_count == session_file_count,
        r.session_index_count == session_index_count,
{
    HistoryStatus {
        ok: true,
        ready: false,
        reason: Some(reason),
        current_provider: String::new(),
        current_model: None,
        total_threads: 0,
        mismatched_provider_threads: 0,
        mismatched_model_threads: None,
        session_file_count,
        session_index_count,
    }
}

/// The status of readable history: `counts` holds the number of threads
/// and of threads under another provider, or is `None` where the database
/// has no threads table.
pub fn status_of_history(
    profile: CurrentCodexProfile,
    counts: Option<(i64, i64)>,
    session_file_count: usize,
    session_index_count: usize,
) -> (r: HistoryStatus)
    ensures
        r.ok && r.ready,
        r.current_provider == profile.provider,
        r.current_model == profile.model,
        r.mismatched_model_threads is None,
        r.session_file_count == session_file_count,
        r.session_index_count == session_index_count,
        match counts {
            None => r.reason matches Some(s) && s@ == "missing threads table"@ && r.total_threads == 0
                && r.mismatched_provider_threads == 0,
            Some((total, mismatched)) => r.reason is None && r.total_threads == total
                && r.mismatched_provider_threads == mismatched,
        },
{
    let (reason, total_threads, mismatched_provider_threads) = match counts {
        None => (Some("missing threads table".to_string()), 0i64, 0i64),
        Some((total, mismatched)) => (None, total, mismatched),
    };
    HistoryStatus {
        ok: true,
        ready: true,
        reason,
        current_provider: profile.provider,
        current_model: profile.model,
        total_threads,
        mismatched_provider_threads,
        mismatched_model_threads: None,
        session_file_count,
        session_index_count,
    }
}

/// The summary of a repair.
pub fn sync_result(
    profile: CurrentCodexProfile,
    updated_database_rows: usize,
    updated_session_files: usize,
    updated_session_index: bool,
    updated_global_state: bool,
) -> (r: HistorySyncResult)
    ensures
        r.ok,
        r.current_provider == profile.provider,
        r.current_model == profile.model,
        r.updated_database_rows == updated_database_rows,
        r.updated_session_files == updated_session_files,
        r.updated_session_index == updated_session_index,
        r.updated_global_state == updated_global_state,
{
    HistorySyncResult {
        ok: true,
        current_provider: profile.provider,
        current_model: profile.model,
        updated_database_rows,
        updated_session_files,
        updated_session_index,
        updated_global_state,
    }
}

// ---------------------------------------------------------------------------
// Database queries
// ---------------------------------------------------------------------------

/// `name` is one of `columns`.
pub open spec fn has_column(columns: Seq<String>, name: Seq<char>) -> bool {
    exists|i: int| 0 <= i < columns.len() && #[trigger] columns[i]@ == name
}

fn column_in(columns: &Vec<String>, name: &str) -> (r: bool)
    ensures
        r == has_column(columns@, name@),
{
    let mut i: usize = 0;
    while i < columns.len()
        invariant
            i <= columns.len(),
            forall|j: int| 0 <= j < i ==> columns@[j]@ != name@,
        decreases columns.len() - i,
    {
        if crate::text::same_text(columns[i].as_str(), name) {
            assert(columns@[i as int]@ == name@);
            return true;
        }
        i = i + 1;
    }
    false
}

/// `column` where the table has it, else the constant `fallback` under
/// that name.
pub open spec fn column_or(columns: Seq<String>, column: Seq<char>, fallback: Seq<char>) -> Seq<char> {
    if has_column(columns, column) {
        column
    } else {
        fallback
    }
}

/// The query for the threads that the session index lists: id, title,
/// rollout path and update times, of threads that are not archived, oldest
/// first.  Columns the table lacks are read as constants.
pub open spec fn thread_index_sql(columns: Seq<String>) -> Seq<char> {
    "SELECT id, "@ + column_or(columns, "title"@, "id AS title"@) + ", "@ + column_or(
        columns,
        "rollout_path"@,
        "'' AS rollout_path"@,
    ) + ", "@ + column_or(columns, "updated_at"@, "0 AS updated_at"@) + ", "@ + column_or(
        columns,
        "updated_at_ms"@,
        "0 AS updated_at_ms"@,
    ) + " FROM threads "@ + (if has_column(columns, "archived"@) {
        "WHERE archived = 0"@
    } else {
        ""@
    }) + " "@ + (if has_column(columns, "updated_at_ms"@) || has_column(columns, "updated_at"@) {
        "ORDER BY COALESCE(updated_at_ms, updated_at * 1000, 0) ASC, id ASC"@
    } else {
        "ORDER BY id ASC"@
    })
}

pub fn thread_index_query(columns: &Vec<String>) -> (r: String)
    ensures
        r@ == thread_index_sql(columns@),
{
    let mut sql = "SELECT id, ".to_string();
    sql.append(if column_in(columns, "title") { "title" } else { "id AS title" });
    sql.append(", ");
    sql.append(if column_in(columns, "rollout_path") { "rollout_path" } else { "'' AS rollout_path" });
    sql.append(", ");
    sql.append(if column_in(columns, "updated_at") { "updated_at" } else { "0 AS updated_at" });
    sql.append(", ");
    sql.append(if column_in(columns, "updated_at_ms") { "updated_at_ms" } else { "0 AS updated_at_ms" });
    sql.append(" FROM threads ");
    sql.append(if column_in(columns, "archived") { "WHERE archived = 0" } else { "" });
    sql.append(" ");
    sql.append(
        if column_in(columns, "updated_at_ms") || column_in(columns, "updated_at") {
            "ORDER BY COALESCE(updated_at_ms, updated_at * 1000, 0) ASC, id ASC"
        } else {
            "ORDER BY id ASC"
        },
    );
    sql
}

/// The query for the working directory of each thread that is not
/// archived, by id.
pub open spec fn thread_ui_sql(columns: Seq<String>) -> Seq<char> {
    "SELECT id, "@ + column_or(columns, "cwd"@, "'' AS cwd"@) + " FROM threads "@ + (if has_column(
        columns,
        "archived"@,
    ) {
        "WHERE archived = 0"@
    } else {
        ""@
    }) + " ORDER BY id ASC"@
}

pub fn thread_ui_query(columns: &Vec<String>) -> (r: String)
    ensures
        r@ == thread_ui_sql(columns@),
{
    let mut sql = "SELECT id, ".to_string();
    sql.append(if column_in(columns, "cwd") { "cwd" } else { "'' AS cwd" });
    sql.append(" FROM threads ");
    sql.append(if column_in(columns, "archived") { "WHERE archived = 0" } else { "" });
    sql.append(" ORDER BY id ASC");
    sql
}

// ---------------------------------------------------------------------------
// Times
// ---------------------------------------------------------------------------

/// The RFC 3339 text (to the second, with `Z`) of the instant `ms`
/// milliseconds after the Unix epoch, where chrono can represent it.
pub uninterp spec fn rfc3339_of_millis(ms: int) -> Option<Seq<char>>;

/// `Utc.timestamp_millis_opt(ms).single()` written with
/// `to_rfc3339_opts(SecondsFormat::Secs, true)`: a function of `ms`, and
/// present for the epoch itself.
#[verifier::external_body]
pub(crate) fn rfc3339_from_millis(ms: i64) -> (r: Option<String>)
    ensures
        opt_string(r) == rfc3339_of_millis(ms as int),
        ms == 0 ==> r is Some,
{
    match chrono::Utc.timestamp_millis_opt(ms).single() {
        Some(dt) => Some(dt.to_rfc3339_opts(chrono::SecondsFormat::Secs, true)),
        None => None,
    }
}

/// The time written in the session index for `ms`: negative times count as
/// the epoch, and times chrono cannot represent are written as the epoch.
pub open spec fn iso_text(ms: int) -> Seq<char> {
    let m = if ms < 0 {
        0
    } else {
        ms
    };
    match rfc3339_of_millis(m) {
        Some(s) => s,
        None => rfc3339_of_millis(0)->0,
    }
}

pub fn iso_from_ms(timestamp_ms: i64) -> (r: String)
    ensures
        r@ == iso_text(timestamp_ms as int),
{
    let m = if timestamp_ms < 0 {
        0
    } else {
        timestamp_ms
    };
    match rfc3339_from_millis(m) {
        Some(s) => s,
        None => {
            let epoch = rfc3339_from_millis(0);
            match epoch {
                Some(s) => s,
                None => String::new(),
            }
        },
    }
}

// ---------------------------------------------------------------------------
// Session index entries
// ---------------------------------------------------------------------------

/// `t` with member `k` set to `v` (for an object).
pub open spec fn with_member(t: JsonTree, k: Seq<char>, v: JsonTree) -> JsonTree {
    graft(t, key_path(k), v)
}

/// The time of a thread for the index: that of its rollout file, else its
/// update time in milliseconds, else in seconds, else 0.
pub open spec fn thread_time(rollout_ms: Option<i64>, updated_at: Option<i64>, updated_at_ms: Option<i64>) -> int {
    match rollout_ms {
        Some(t) => t as int,
        None => match updated_at_ms {
            Some(t) => t as int,
            None => match updated_at {
                Some(t) => t * 1000,
                None => 0,
            },
        },
    }
}

/// The index entry of a thread: its id, its title (its id where the title
/// is missing or empty), and its time.
pub open spec fn index_entry(id: Seq<char>, title: Option<Seq<char>>, time: int) -> JsonTree {
    let name = match title {
        Some(t) if t.len() > 0 => t,
        _ => id,
    };
    with_member(
        with_member(with_member(empty_object(), "id"@, str_value(id)), "thread_name"@, str_value(name)),
        "updated_at"@,
        str_value(iso_text(time)),
    )
}

pub fn thread_index_entry(
    id: String,
    title: Option<String>,
    rollout_ms: Option<i64>,
    updated_at: Option<i64>,
    updated_at_ms: Option<i64>,
) -> (r: serde_json::Value)
    requires
        i64::MIN <= thread_time(rollout_ms, updated_at, updated_at_ms) <= i64::MAX,
    ensures
        json_tree(r) == index_entry(id@, opt_string(title), thread_time(rollout_ms, updated_at, updated_at_ms)),
{
    let timestamp: i64 = match rollout_ms {
        Some(t) => t,
        None => match updated_at_ms {
            Some(t) => t,
            None => match updated_at {
                Some(t) => t * 1000,
                None => 0,
            },
        },
    };
    let name = match title {
        Some(t) => if t.unicode_len() > 0 {
            t
        } else {
            id.clone()
        },
        None => id.clone(),
    };
    let mut entry = json_object();
    json_insert(&mut entry, "id".to_string(), json_string(id));
    proof {
        assert(node_at(json_tree(entry), Seq::empty()) == Some(JsonNode::Obj)) by {
            assert(!key_path("id"@).is_prefix_of(Seq::<JsonSeg>::empty()));
        }
    }
    json_insert(&mut entry, "thread_name".to_string(), json_string(name));
    proof {
        assert(node_at(json_tree(entry), Seq::empty()) == Some(JsonNode::Obj)) by {
            assert(!key_path("thread_name"@).is_prefix_of(Seq::<JsonSeg>::empty()));
        }
    }
    json_insert(&mut entry, "updated_at".to_string(), json_string(iso_from_ms(timestamp)));
    entry
}

// ---------------------------------------------------------------------------
// Session files
// ---------------------------------------------------------------------------

/// The first line of a session file, its ending and the rest (an unended
/// last line is given a line feed).
pub open spec fn session_split(text: Seq<char>) -> Option<(Seq<char>, Seq<char>, Seq<char>)> {
    crate::text::line_split(text, seq!['\n'])
}

pub fn split_first_line(text: &str) -> (r: Option<(String, String, String)>)
    ensures
        match session_split(text@) {
            Some((a, b, c)) => r matches Some((x, y, z)) && x@ == a && y@ == b && z@ == c,
            None => r is None,
        },
{
    proof {
        reveal_strlit("\n");
    }
    crate::text::split_line(text, "\n")
}

/// The settings at the head of a session file, where its first line is a
/// `session_meta` record whose payload is an object.
pub open spec fn session_meta(text: Seq<char>) -> Option<(JsonTree, JsonTree)> {
    match session_split(text) {
        None => None,
        Some((first, _, _)) => match json_parsed(first) {
            None => None,
            Some(t) => if member_str(t, "type"@) == Some("session_meta"@) {
                match member(t, "payload"@) {
                    Some(p) if node_at(p, Seq::empty()) == Some(JsonNode::Obj) => Some((t, p)),
                    _ => None,
                }
            } else {
                None
            },
        },
    }
}

/// The new first-line record of a session file that is to name `provider`:
/// `None` where the file is left as it is (no session record, or one that
/// already names `provider`).
pub open spec fn meta_update(text: Seq<char>, provider: Seq<char>) -> Option<JsonTree> {
    match session_meta(text) {
        None => None,
        Some((t, p)) => {
            let current = match member_str(p, "model_provider"@) {
                Some(s) => s,
                None => Seq::empty(),
            };
            if current == provider {
                None
            } else {
                Some(with_member(t, "payload"@, with_member(p, "model_provider"@, str_value(provider))))
            }
        },
    }
}

/// The new text of a session file that is to name `provider` in its first
/// record, or `None` where it is left as it is.  The record is written again
/// compactly; the rest of the file is kept byte for byte.
pub fn rewrite_session_meta(text: &str, provider: &str) -> (r: Option<String>)
    ensures
        match meta_update(text@, provider@) {
            None => r is None,
            Some(t) => match (r, session_split(text@)) {
                (Some(s), Some((_, ending, rest))) => s@ == json_compact_text(t) + ending + rest,
                _ => false,
            },
        },
        r matches Some(s) ==> rewritten(s@, provider@) is None,
{
    let (first, ending, rest) = match split_first_line(text) {
        Some(parts) => parts,
        None => {
            return None;
        },
    };
    let mut item = match json_parse(first.as_str()) {
        Ok(v) => v,
        Err(_) => {
            return None;
        },
    };
    let ghost t0 = json_tree(item);
    proof {
        reveal_strlit("session_meta");
        reveal_strlit("type");
        reveal_strlit("payload");
        reveal_strlit("model_provider");
    }
    let is_meta = match get_str(&item, "type") {
        Some(kind) => crate::text::same_text(kind.as_str(), "session_meta"),
        None => false,
    };
    if !is_meta {
        return None;
    }
    let payload = match json_get(&item, "payload") {
        Some(p) => {
            proof {
                assert(key_path("payload"@) + Seq::<JsonSeg>::empty() =~= key_path("payload"@));
            }
            if !json_is_object(p) {
                return None;
            }
            p
        },
        None => {
            return None;
        },
    };
    let current = match get_str(payload, "model_provider") {
        Some(s) => s,
        None => String::new(),
    };
    if crate::text::same_text(current.as_str(), provider) {
        return None;
    }
    let ghost p0 = json_tree(*payload);
    let mut new_payload = json_clone(payload);
    json_insert(&mut new_payload, "model_provider".to_string(), json_string(provider.to_string()));
    let ghost p2 = json_tree(new_payload);
    proof {
        assert(node_at(json_tree(item), Seq::empty()) == Some(JsonNode::Obj));
    }
    json_insert(&mut item, "payload".to_string(), new_payload);
    let ghost whole = json_tree(item);
    proof {
        let kp = key_path("payload"@);
        let km = key_path("model_provider"@);
        assert(p0 == subtree(t0, kp));
        crate::json_value::lemma_subtree_within(t0, kp, 126);
        crate::json_value::lemma_str_within(provider@, 124);
        crate::json_value::lemma_graft_within(p0, km, str_value(provider@), 125);
        crate::json_value::lemma_graft_within(t0, kp, p2, 126);
        crate::json_value::lemma_member_of_graft(p0, "model_provider"@, str_value(provider@), "model_provider"@);
        crate::tree::lemma_graft_at(p0, km, str_value(provider@), Seq::empty());
        assert(!km.is_prefix_of(Seq::<JsonSeg>::empty()));
        crate::json_value::lemma_member_of_graft(t0, "payload"@, p2, "type"@);
    }
    let mut out = match json_to_compact(&item) {
        Ok(line) => line,
        Err(_) => {
            return None;
        },
    };
    proof {
        let c = out@;
        let u = json_parsed(c)->0;
        assert(crate::json_value::same_but_digits(u, whole));
        assert(member(whole, "payload"@) == Some(p2));
        assert(node_at(str_value(provider@), Seq::empty()) == Some(JsonNode::Str(provider@)));
        assert(member_str(p2, "model_provider"@) == Some(provider@));
        crate::json_value::lemma_same_digits_member(u, whole, "type"@);
        crate::json_value::lemma_same_digits_member(u, whole, "payload"@);
        let mu = member(u, "payload"@)->0;
        crate::json_value::lemma_same_digits_member(mu, p2, "model_provider"@);
        crate::text::lemma_line_split_new_head(text@, c);
        assert(session_split(c + ending@ + rest@) == Some((c, ending@, rest@)));
        assert(session_meta(c + ending@ + rest@) == Some((u, mu)));
        assert(meta_update(c + ending@ + rest@, provider@) is None);
    }
    out.append(ending.as_str());
    out.append(rest.as_str());
    Some(out)
}

/// The new text of a session file that is to name `provider`, or `None`
/// where it is left as it is.
pub open spec fn rewritten(text: Seq<char>, provider: Seq<char>) -> Option<Seq<char>> {
    match (meta_update(text, provider), session_split(text)) {
        (Some(t), Some((_, ending, rest))) => Some(json_compact_text(t) + ending + rest),
        _ => None,
    }
}

/// The session files (path, text where it could be read) that are to be
/// written again for `provider`, each with its new text, in order.
pub open spec fn session_rewrites(files: Seq<(String, Option<String>)>, provider: Seq<char>) -> Seq<(Seq<char>, Seq<char>)>
    decreases files.len(),
{
    if files.len() == 0 {
        Seq::empty()
    } else {
        let before = session_rewrites(files.drop_last(), provider);
        match files.last().1 {
            Some(text) => match rewritten(text@, provider) {
                Some(new_text) => before.push((files.last().0@, new_text)),
                None => before,
            },
            None => before,
        }
    }
}

/// The writes that bring the session files in line with `provider`: for
/// each readable file whose first record names another provider, its path
/// and new text.  A file so written needs no rewrite when the sync runs
/// again for the same provider.
pub fn session_file_updates(files: &Vec<(String, Option<String>)>, provider: &str) -> (r: Vec<(String, String)>)
    ensures
        r@.map_values(|w: (String, String)| (w.0@, w.1@)) == session_rewrites(files@, provider@),
        forall|k: int| 0 <= k < r@.len() ==> rewritten((#[trigger] r@[k]).1@, provider@) is None,
{
    let mut out: Vec<(String, String)> = Vec::new();
    let mut i: usize = 0;
    while i < files.len()
        invariant
            i <= files@.len(),
            out@.map_values(|w: (String, String)| (w.0@, w.1@)) == session_rewrites(files@.take(i as int), provider@),
            forall|k: int| 0 <= k < out@.len() ==> rewritten((#[trigger] out@[k]).1@, provider@) is None,
        decreases files@.len() - i,
    {
        assert(files@.take(i + 1).drop_last() =~= files@.take(i as int));
        assert(files@.take(i + 1).last() == files@[i as int]);
        match &files[i].1 {
            Some(text) => {
                match rewrite_session_meta(text.as_str(), provider) {
                    Some(new_text) => {
                        let ghost before = out@;
                        let ghost nt = new_text@;
                        out.push((files[i].0.clone(), new_text));
                        assert(out@.map_values(|w: (String, String)| (w.0@, w.1@)) =~= before.map_values(
                            |w: (String, String)| (w.0@, w.1@),
                        ).push((files@[i as int].0@, nt)));
                    },
                    None => {},
                }
            },
            None => {},
        }
        i = i + 1;
    }
    assert(files@.take(files@.len() as int) =~= files@);
    out
}

/// The thread ids the readable session files record, in order.
pub open spec fn recorded_ids(texts: Seq<Option<String>>) -> Seq<Seq<char>>
    decreases texts.len(),
{
    if texts.len() == 0 {
        Seq::empty()
    } else {
        let before = recorded_ids(texts.drop_last());
        match texts.last() {
            Some(t) => match session_id(t@) {
                Some(id) => before.push(id),
                None => before,
            },
            None => before,
        }
    }
}

/// The thread ids of the session files whose texts could be read.
pub fn session_file_ids(texts: &Vec<Option<String>>) -> (r: Vec<String>)
    ensures
        r@.map_values(|s: String| s@) == recorded_ids(texts@),
{
    let mut out: Vec<String> = Vec::new();
    let mut i: usize = 0;
    while i < texts.len()
        invariant
            i <= texts@.len(),
            out@.map_values(|s: String| s@) == recorded_ids(texts@.take(i as int)),
        decreases texts@.len() - i,
    {
        assert(texts@.take(i + 1).drop_last() =~= texts@.take(i as int));
        assert(texts@.take(i + 1).last() == texts@[i as int]);
        match &texts[i] {
            Some(t) => match session_thread_id(t.as_str()) {
                Some(id) => {
                    let ghost before = out@;
                    let ghost idv = id@;
                    out.push(id);
                    assert(out@.map_values(|s: String| s@) =~= before.map_values(|s: String| s@).push(idv));
                },
                None => {},
            },
            None => {},
        }
        i = i + 1;
    }
    assert(texts@.take(texts@.len() as int) =~= texts@);
    out
}

/// Repairing a session file changes nothing in its first record but the
/// payload's `model_provider`, which then names the provider; the model and
/// every other field stay as they were.
pub proof fn law_session_rewrite_keeps_other_fields(text: Seq<char>, provider: Seq<char>, q: Seq<JsonSeg>)
    requires
        meta_update(text, provider) is Some,
        !seq![JsonSeg::Key("payload"@), JsonSeg::Key("model_provider"@)].is_prefix_of(q),
    ensures
        session_meta(text) matches Some((t, _)) && node_at(meta_update(text, provider)->0, q) == node_at(t, q),
        node_at(meta_update(text, provider)->0, seq![JsonSeg::Key("payload"@), JsonSeg::Key("model_provider"@)])
            == Some(JsonNode::Str(provider)),
{
    let (t, p) = session_meta(text)->0;
    let kp = key_path("payload"@);
    let km = key_path("model_provider"@);
    let inner = with_member(p, "model_provider"@, str_value(provider));
    let n = with_member(t, "payload"@, inner);
    assert(meta_update(text, provider)->0 == n);
    assert(p == subtree(t, kp));
    crate::tree::lemma_graft_at(t, kp, inner, q);
    lemma_single_prefix(JsonSeg::Key("payload"@), q);
    if q.len() > 0 && q[0] == JsonSeg::Key("payload"@) {
        let rest = q.skip(1);
        crate::tree::lemma_graft_at(p, km, str_value(provider), rest);
        lemma_single_prefix(JsonSeg::Key("model_provider"@), rest);
        if rest.len() > 0 && rest[0] == JsonSeg::Key("model_provider"@) {
            assert(q.subrange(0, 2) =~= seq![JsonSeg::Key("payload"@), JsonSeg::Key("model_provider"@)]);
        }
        assert(kp + rest =~= q);
    }
    let both = seq![JsonSeg::Key("payload"@), JsonSeg::Key("model_provider"@)];
    crate::tree::lemma_graft_at(t, kp, inner, both);
    lemma_single_prefix(JsonSeg::Key("payload"@), both);
    let rest = both.skip(1);
    assert(rest =~= km);
    crate::tree::lemma_graft_at(p, km, str_value(provider), rest);
    assert(km.is_prefix_of(rest));
    assert(rest.skip(1) =~= Seq::<JsonSeg>::empty());
}

/// The thread id a session file records in its first line.
pub open spec fn session_id(text: Seq<char>) -> Option<Seq<char>> {
    match session_split(text) {
        None => None,
        Some((first, _, _)) => match json_parsed(first) {
            None => None,
            Some(t) => if member_str(t, "type"@) == Some("session_meta"@) {
                match member(t, "payload"@) {
                    Some(p) => member_str(p, "id"@),
                    None => None,
                }
            } else {
                None
            },
        },
    }
}

pub fn session_thread_id(text: &str) -> (r: Option<String>)
    ensures
        opt_string(r) == session_id(text@),
{
    let (first, _, _) = match split_first_line(text) {
        Some(parts) => parts,
        None => {
            return None;
        },
    };
    let value = match json_parse(first.as_str()) {
        Ok(v) => v,
        Err(_) => {
            return None;
        },
    };
    proof {
        reveal_strlit("session_meta");
    }
    let is_meta = match get_str(&value, "type") {
        Some(kind) => crate::text::same_text(kind.as_str(), "session_meta"),
        None => false,
    };
    if !is_meta {
        return None;
    }
    match json_get(&value, "payload") {
        Some(p) => {
            proof {
                assert(key_path("payload"@) + Seq::<JsonSeg>::empty() =~= key_path("payload"@));
            }
            get_str(p, "id")
        },
        None => None,
    }
}

/// The entries of a session index with the text `text`: each line that is
/// not blank, parses as JSON and has an `id` member, in order.
pub open spec fn index_entries(text: Seq<char>) -> Seq<JsonTree> {
    index_entries_of(lines(text))
}

pub open spec fn index_entries_of(ls: Seq<Seq<char>>) -> Seq<JsonTree>
    decreases ls.len(),
{
    if ls.len() == 0 {
        Seq::empty()
    } else {
        let before = index_entries_of(ls.drop_last());
        let line = ls.last();
        if is_blank(line) {
            before
        } else {
            match json_parsed(line) {
                Some(t) if member(t, "id"@) is Some => before.push(t),
                _ => before,
            }
        }
    }
}

/// The trees of a list of values.
pub open spec fn trees(vs: Seq<serde_json::Value>) -> Seq<JsonTree> {
    vs.map_values(|v: serde_json::Value| json_tree(v))
}

pub fn read_session_index_entries(text: &str) -> (r: Vec<serde_json::Value>)
    ensures
        trees(r@) == index_entries(text@),
{
    let ls = lines_of(text);
    let ghost lv = lines(text@);
    let mut entries: Vec<serde_json::Value> = Vec::new();
    let mut i: usize = 0;
    while i < ls.len()
        invariant
            i <= ls.len(),
            ls@.len() == lv.len(),
            forall|j: int| 0 <= j < ls@.len() ==> #[trigger] ls@[j]@ == lv[j],
            trees(entries@) == index_entries_of(lv.take(i as int)),
        decreases ls.len() - i,
    {
        assert(lv.take(i + 1).drop_last() =~= lv.take(i as int));
        assert(lv.take(i + 1).last() == lv[i as int]);
        let line = ls[i].as_str();
        if !blank(line) {
            if let Ok(value) = json_parse(line) {
                if json_get(&value, "id").is_some() {
                    entries.push(value);
                    assert(trees(entries@) =~= trees(entries@.drop_last()).push(json_tree(value)));
                }
            }
        }
        i = i + 1;
    }
    assert(lv.take(lv.len() as int) =~= lv);
    entries
}

// ---------------------------------------------------------------------------
// Merging the session index
// ---------------------------------------------------------------------------

/// The id of an index entry, empty where it has none.
pub open spec fn entry_id(t: JsonTree) -> Seq<char> {
    match member_str(t, "id"@) {
        Some(s) => s,
        None => Seq::empty(),
    }
}

/// `id` is one of `ids`.
pub open spec fn listed(ids: Seq<String>, id: Seq<char>) -> bool {
    exists|i: int| 0 <= i < ids.len() && #[trigger] ids[i]@ == id
}

/// The last entry of `ex` whose id is `id`.
pub open spec fn last_with_id(ex: Seq<JsonTree>, id: Seq<char>) -> Option<JsonTree>
    decreases ex.len(),
{
    if ex.len() == 0 {
        None
    } else if member_str(ex.last(), "id"@) == Some(id) {
        Some(ex.last())
    } else {
        last_with_id(ex.drop_last(), id)
    }
}

pub open spec fn is_obj(t: JsonTree) -> bool {
    node_at(t, Seq::empty()) == Some(JsonNode::Obj)
}

/// The path `q` goes through a member of `p` whose key is in `ks`.
pub open spec fn under_key(q: Seq<JsonSeg>, ks: Set<Seq<char>>) -> bool {
    q.len() > 0 && q[0] is Key && ks.contains(q[0]->Key_0)
}

/// `t` with the members of `p` under the keys `ks` copied over it.
pub open spec fn merge_keys(t: JsonTree, p: JsonTree, ks: Set<Seq<char>>) -> JsonTree {
    Map::new(
        |q: Seq<JsonSeg>|
            if under_key(q, ks) {
                p.dom().contains(q)
            } else {
                t.dom().contains(q)
            },
        |q: Seq<JsonSeg>|
            if under_key(q, ks) {
                p[q]
            } else {
                t[q]
            },
    )
}

/// The keys of the members of an object.
pub open spec fn member_keys(p: JsonTree) -> Set<Seq<char>> {
    Set::new(|k: Seq<char>| p.dom().contains(key_path(k)))
}

/// `target` with every member of `patch` copied over it, where both are
/// objects; `target` unchanged otherwise.
pub open spec fn merged_object(target: JsonTree, patch: JsonTree) -> JsonTree {
    if is_obj(target) && is_obj(patch) {
        merge_keys(target, patch, member_keys(patch))
    } else {
        target
    }
}

/// Copies every member of `patch` over `target`, where both are objects.
pub fn merge_object(target: &mut serde_json::Value, patch: &serde_json::Value)
    ensures
        json_tree(*final(target)) == merged_object(json_tree(*old(target)), json_tree(*patch)),
{
    if !json_is_object(target) || !json_is_object(patch) {
        return;
    }
    let ghost t0 = json_tree(*target);
    let ghost p = json_tree(*patch);
    let keys = json_keys(patch);
    let mut i: usize = 0;
    assert(merge_keys(t0, p, Set::empty()) =~= t0);
    while i < keys.len()
        invariant
            i <= keys.len(),
            p == json_tree(*patch),
            is_obj(t0),
            is_obj(p),
            forall|a: int, b: int| 0 <= a < b < keys@.len() ==> keys@[a]@ != keys@[b]@,
            forall|a: int| 0 <= a < keys@.len() ==> p.dom().contains(#[trigger] key_path(keys@[a]@)),
            forall|k: Seq<char>| p.dom().contains(#[trigger] key_path(k)) ==> exists|a: int| 0 <= a < keys@.len() && keys@[a]@ == k,
            json_tree(*target) == merge_keys(t0, p, Set::new(|k: Seq<char>| exists|a: int| 0 <= a < i && keys@[a]@ == k)),
        decreases keys.len() - i,
    {
        let ghost ks = Set::new(|k: Seq<char>| exists|a: int| 0 <= a < i && keys@[a]@ == k);
        let ghost ks2 = Set::new(|k: Seq<char>| exists|a: int| 0 <= a < i + 1 && keys@[a]@ == k);
        let ghost k = keys@[i as int]@;
        let ghost m = json_tree(*target);
        let member_value = match json_get(patch, keys[i].as_str()) {
            Some(v) => json_clone(v),
            None => json_object(),
        };
        proof {
            assert(p.dom().contains(key_path(k)));
            assert(json_tree(member_value) == crate::tree::subtree(p, key_path(k)));
            assert(is_obj(m)) by {
                assert(!under_key(Seq::<JsonSeg>::empty(), ks));
            }
        }
        json_insert(target, keys[i].clone(), member_value);
        proof {
            assert(ks2 =~= ks.insert(k));
            assert(json_tree(*target) =~= merge_keys(t0, p, ks2)) by {
                assert forall|q: Seq<JsonSeg>| true implies #[trigger] json_tree(*target).dom().contains(q) == merge_keys(t0, p, ks2).dom().contains(q)
                    && (json_tree(*target).dom().contains(q) ==> json_tree(*target)[q] == merge_keys(t0, p, ks2)[q]) by {
                    lemma_single_prefix(JsonSeg::Key(k), q);
                    if q.len() > 0 && q[0] == JsonSeg::Key(k) {
                        assert(key_path(k) + q.skip(1) =~= q);
                    }
                }
            }
        }
        i = i + 1;
    }
    proof {
        let ks = Set::new(|k: Seq<char>| exists|a: int| 0 <= a < i && keys@[a]@ == k);
        assert(ks =~= member_keys(p));
    }
}

/// The ids of the entries of `db` that go into the index.
pub open spec fn db_ids(db: Seq<JsonTree>, ids: Seq<String>) -> Set<Seq<char>> {
    Set::new(|id: Seq<char>| exists|i: int| 0 <= i < db.len() && #[trigger] entry_id(db[i]) == id && id.len() > 0 && listed(ids, id))
}

/// The index entries for the threads of the database that have session
/// files: each entry of the index with the same id, if any, updated with the
/// database's fields; in the database's order.
pub open spec fn db_part(db: Seq<JsonTree>, ex: Seq<JsonTree>, ids: Seq<String>) -> Seq<JsonTree>
    decreases db.len(),
{
    if db.len() == 0 {
        Seq::empty()
    } else {
        let before = db_part(db.drop_last(), ex, ids);
        let d = db.last();
        let id = entry_id(d);
        if id.len() > 0 && listed(ids, id) {
            before.push(
                merged_object(
                    match last_with_id(ex, id) {
                        Some(e) => e,
                        None => empty_object(),
                    },
                    d,
                ),
            )
        } else {
            before
        }
    }
}

/// The ids of a list of entries.
pub open spec fn ids_in(p: Seq<JsonTree>) -> Set<Seq<char>> {
    Set::new(|id: Seq<char>| exists|i: int| 0 <= i < p.len() && #[trigger] entry_id(p[i]) == id)
}

/// The entries of the index that the database does not list but whose
/// threads have session files, each id once, in the index's order.
pub open spec fn ex_part(ex: Seq<JsonTree>, ids: Seq<String>, seen: Set<Seq<char>>) -> Seq<JsonTree>
    decreases ex.len(),
{
    if ex.len() == 0 {
        Seq::empty()
    } else {
        let before = ex_part(ex.drop_last(), ids, seen);
        let e = ex.last();
        let id = entry_id(e);
        if id.len() > 0 && !seen.contains(id) && !ids_in(before).contains(id) && listed(ids, id) {
            before.push(e)
        } else {
            before
        }
    }
}

/// The merged session index.
pub open spec fn merged_index(db: Seq<JsonTree>, ex: Seq<JsonTree>, ids: Seq<String>) -> Seq<JsonTree> {
    db_part(db, ex, ids) + ex_part(ex, ids, db_ids(db, ids))
}

pub(crate) fn listed_in(ids: &Vec<String>, id: &str) -> (r: bool)
    ensures
        r == listed(ids@, id@),
{
    let mut i: usize = 0;
    while i < ids.len()
        invariant
            i <= ids.len(),
            forall|j: int| 0 <= j < i ==> ids@[j]@ != id@,
        decreases ids.len() - i,
    {
        if crate::text::same_text(ids[i].as_str(), id) {
            assert(ids@[i as int]@ == id@);
            return true;
        }
        i = i + 1;
    }
    false
}

fn entry_id_of(v: &serde_json::Value) -> (r: String)
    ensures
        r@ == entry_id(json_tree(*v)),
{
    match get_str(v, "id") {
        Some(s) => s,
        None => String::new(),
    }
}

fn find_last_with_id(ex: &Vec<serde_json::Value>, id: &str) -> (r: Option<usize>)
    ensures
        match last_with_id(trees(ex@), id@) {
            Some(e) => r matches Some(i) && i < ex@.len() && json_tree(ex@[i as int]) == e,
            None => r is None,
        },
{
    let mut i = ex.len();
    let ghost all = trees(ex@);
    assert(all.take(ex@.len() as int) =~= all);
    while i > 0
        invariant
            i <= ex@.len(),
            all == trees(ex@),
            last_with_id(all, id@) == last_with_id(all.take(i as int), id@),
        decreases i,
    {
        let ghost s = all.take(i as int);
        assert(s.drop_last() =~= all.take(i - 1));
        assert(s.last() == json_tree(ex@[i - 1]));
        let matched = match get_str(&ex[i - 1], "id") {
            Some(v) => crate::text::same_text(v.as_str(), id),
            None => false,
        };
        if matched {
            return Some(i - 1);
        }
        i = i - 1;
    }
    assert(all.take(0) =~= Seq::<JsonTree>::empty());
    None
}

/// Merges the index entries built from the database (`db_entries`) with
/// those of the index file (`existing`), keeping only threads whose ids are
/// in `file_ids`.
pub fn merge_session_entries(
    db_entries: &Vec<serde_json::Value>,
    existing: &Vec<serde_json::Value>,
    file_ids: &Vec<String>,
) -> (r: Vec<serde_json::Value>)
    ensures
        trees(r@) == merged_index(trees(db_entries@), trees(existing@), file_ids@),
{
    let ghost db = trees(db_entries@);
    let ghost ex = trees(existing@);
    let mut merged: Vec<serde_json::Value> = Vec::new();
    let mut seen: Vec<String> = Vec::new();
    let mut i: usize = 0;
    while i < db_entries.len()
        invariant
            i <= db_entries@.len(),
            db == trees(db_entries@),
            ex == trees(existing@),
            trees(merged@) == db_part(db.take(i as int), ex, file_ids@),
            forall|id: Seq<char>| #![trigger listed(seen@, id)] listed(seen@, id) <==> db_ids(db.take(i as int), file_ids@).contains(id),
        decreases db_entries@.len() - i,
    {
        let ghost s = db.take(i + 1);
        assert(s.drop_last() =~= db.take(i as int));
        assert(s.last() == json_tree(db_entries@[i as int]));
        let entry = &db_entries[i];
        let id = entry_id_of(entry);
        if id.unicode_len() > 0 && listed_in(file_ids, id.as_str()) {
            let mut base = match find_last_with_id(existing, id.as_str()) {
                Some(k) => json_clone(&existing[k]),
                None => json_object(),
            };
            merge_object(&mut base, entry);
            merged.push(base);
            assert(trees(merged@) =~= trees(merged@.drop_last()).push(json_tree(base)));
            let ghost seen0 = seen@;
            seen.push(id);
            assert forall|x: Seq<char>| #![trigger listed(seen@, x)] listed(seen@, x) <==> db_ids(s, file_ids@).contains(x) by {
                if listed(seen@, x) {
                    let j = choose|j: int| 0 <= j < seen@.len() && #[trigger] seen@[j]@ == x;
                    if j < seen@.len() - 1 {
                        assert(seen0[j] == seen@[j]);
                        assert(listed(seen0, x));
                        assert(db_ids(db.take(i as int), file_ids@).contains(x));
                        let w = choose|w: int| 0 <= w < db.take(i as int).len() && #[trigger] entry_id(db.take(i as int)[w]) == x && x.len() > 0 && listed(file_ids@, x);
                        assert(s[w] == db.take(i as int)[w]);
                        assert(entry_id(s[w]) == x);
                    } else {
                        assert(s[i as int] == db[i as int]);
                        assert(entry_id(s[i as int]) == x);
                    }
                }
                if db_ids(s, file_ids@).contains(x) {
                    let w = choose|w: int| 0 <= w < s.len() && #[trigger] entry_id(s[w]) == x && x.len() > 0 && listed(file_ids@, x);
                    if w < i {
                        assert(s[w] == db.take(i as int)[w]);
                        assert(entry_id(db.take(i as int)[w]) == x);
                        assert(db_ids(db.take(i as int), file_ids@).contains(x));
                        assert(listed(seen0, x));
                        let j = choose|j: int| 0 <= j < seen0.len() && #[trigger] seen0[j]@ == x;
                        assert(seen@[j] == seen0[j]);
                    } else {
                        assert(seen@[seen@.len() - 1]@ == x);
                    }
                }
            }
        } else {
            assert forall|x: Seq<char>| #![trigger listed(seen@, x)] listed(seen@, x) <==> db_ids(s, file_ids@).contains(x) by {
                if db_ids(s, file_ids@).contains(x) {
                    let w = choose|w: int| 0 <= w < s.len() && #[trigger] entry_id(s[w]) == x && x.len() > 0 && listed(file_ids@, x);
                    if w < i {
                        assert(s[w] == db.take(i as int)[w]);
                        assert(db_ids(db.take(i as int), file_ids@).contains(x));
                    }
                }
                if db_ids(db.take(i as int), file_ids@).contains(x) {
                    let w = choose|w: int| 0 <= w < i && #[trigger] entry_id(db.take(i as int)[w]) == x && x.len() > 0 && listed(file_ids@, x);
                    assert(s[w] == db.take(i as int)[w]);
                }
            }
        }
        i = i + 1;
    }
    assert(db.take(db_entries@.len() as int) =~= db);
    let ghost seen_db = db_ids(db, file_ids@);
    let ghost first_part = trees(merged@);
    let mut j: usize = 0;
    while j < existing.len()
        invariant
            j <= existing@.len(),
            db == trees(db_entries@),
            ex == trees(existing@),
            seen_db == db_ids(db, file_ids@),
            first_part == db_part(db, ex, file_ids@),
            trees(merged@) == first_part + ex_part(ex.take(j as int), file_ids@, seen_db),
            forall|id: Seq<char>| #![trigger listed(seen@, id)] listed(seen@, id) <==> (seen_db.contains(id) || ids_in(ex_part(ex.take(j as int), file_ids@, seen_db)).contains(id)),
        decreases existing@.len() - j,
    {
        let ghost s = ex.take(j + 1);
        let ghost before = ex_part(ex.take(j as int), file_ids@, seen_db);
        assert(s.drop_last() =~= ex.take(j as int));
        assert(s.last() == json_tree(existing@[j as int]));
        let entry = &existing[j];
        let id = entry_id_of(entry);
        let already = listed_in(&seen, id.as_str());
        if id.unicode_len() > 0 && !already && listed_in(file_ids, id.as_str()) {
            let ghost m0 = merged@;
            merged.push(json_clone(entry));
            assert(merged@.drop_last() =~= m0);
            assert(trees(merged@) =~= trees(m0).push(json_tree(*entry)));
            let ghost seen0 = seen@;
            seen.push(id);
            let ghost after = ex_part(s, file_ids@, seen_db);
            assert(after == before.push(json_tree(*entry)));
            assert(trees(merged@) =~= first_part + after);
            assert forall|x: Seq<char>| #![trigger listed(seen@, x)] listed(seen@, x) <==> (seen_db.contains(x) || ids_in(after).contains(x)) by {
                if listed(seen@, x) {
                    let k = choose|k: int| 0 <= k < seen@.len() && #[trigger] seen@[k]@ == x;
                    if k < seen@.len() - 1 {
                        assert(seen0[k] == seen@[k]);
                        assert(listed(seen0, x));
                        if ids_in(before).contains(x) {
                            let w = choose|w: int| 0 <= w < before.len() && #[trigger] entry_id(before[w]) == x;
                            assert(after[w] == before[w]);
                            assert(entry_id(after[w]) == x);
                        }
                    } else {
                        assert(entry_id(after[before.len() as int]) == x);
                    }
                }
                if ids_in(after).contains(x) {
                    let w = choose|w: int| 0 <= w < after.len() && #[trigger] entry_id(after[w]) == x;
                    if w < before.len() {
                        assert(after[w] == before[w]);
                        assert(entry_id(before[w]) == x);
                        assert(ids_in(before).contains(x));
                        assert(listed(seen0, x));
                        let k = choose|k: int| 0 <= k < seen0.len() && #[trigger] seen0[k]@ == x;
                        assert(seen@[k] == seen0[k]);
                    } else {
                        assert(seen@[seen@.len() - 1]@ == x);
                    }
                }
                if seen_db.contains(x) {
                    assert(listed(seen0, x));
                    let k = choose|k: int| 0 <= k < seen0.len() && #[trigger] seen0[k]@ == x;
                    assert(seen@[k] == seen0[k]);
                }
            }
        } else {
            assert(ex_part(s, file_ids@, seen_db) == before);
        }
        j = j + 1;
    }
    assert(ex.take(existing@.len() as int) =~= ex);
    merged
}

/// The text of a session index with these entries: each written compactly
/// on its own line, and nothing at all for no entry.
pub open spec fn index_text(ts: Seq<JsonTree>) -> Seq<char> {
    if ts.len() == 0 {
        Seq::empty()
    } else {
        crate::text::join(ts.map_values(|t: JsonTree| json_compact_text(t)), seq!['\n']) + seq!['\n']
    }
}

pub fn session_index_content(entries: &Vec<serde_json::Value>) -> (r: String)
    ensures
        r@ == index_text(trees(entries@)),
{
    if entries.len() == 0 {
        return String::new();
    }
    let ghost texts = trees(entries@).map_values(|t: JsonTree| json_compact_text(t));
    let mut out = String::new();
    let mut i: usize = 0;
    while i < entries.len()
        invariant
            i <= entries@.len(),
            entries@.len() > 0,
            texts == trees(entries@).map_values(|t: JsonTree| json_compact_text(t)),
            out@ == crate::text::join(texts.take(i as int), seq!['\n']),
        decreases entries@.len() - i,
    {
        assert(texts.take(i + 1).drop_last() =~= texts.take(i as int));
        let line = match json_to_compact(&entries[i]) {
            Ok(t) => t,
            Err(_) => String::new(),
        };
        proof {
            reveal_strlit("\n");
        }
        if i > 0 {
            out.append("\n");
        }
        out.append(line.as_str());
        proof {
            if i == 0 {
                assert(texts.take(1) =~= seq![texts[0]]);
            }
            assert(out@ =~= crate::text::join(texts.take(i + 1), seq!['\n']));
        }
        i = i + 1;
    }
    assert(texts.take(entries@.len() as int) =~= texts);
    proof {
        reveal_strlit("\n");
    }
    out.append("\n");
    out
}

/// The new text of the session index whose text is `existing` (empty where
/// there is no file), or `None` where it is to stay as it is: the entries
/// built from the database merged with those of the index.
pub fn session_index_update(
    db_entries: &Vec<serde_json::Value>,
    existing: &str,
    file_ids: &Vec<String>,
) -> (r: Option<String>)
    ensures
        opt_string(r) == replacement(
            index_text(merged_index(trees(db_entries@), index_entries(existing@), file_ids@)),
            existing@,
        ),
{
    let current = read_session_index_entries(existing);
    let merged = merge_session_entries(db_entries, &current, file_ids);
    let content = session_index_content(&merged);
    if crate::text::same_text(content.as_str(), existing) {
        None
    } else {
        Some(content)
    }
}

/// The file name of a session file: `rollout-*.jsonl`.
pub open spec fn session_file_name(name: Seq<char>) -> bool {
    "rollout-"@.is_prefix_of(name) && ".jsonl"@.is_suffix_of(name)
}

/// True for the name of a session file (starts with `rollout-`, has the
/// extension `jsonl`).
pub fn is_session_file_name(name: &str) -> (r: bool)
    ensures
        r == session_file_name(name@),
{
    crate::text::starts_with(name, "rollout-") && crate::text::ends_with(name, ".jsonl")
}

proof fn lemma_last_with_id(ex: Seq<JsonTree>, id: Seq<char>)
    ensures
        last_with_id(ex, id) matches Some(e) ==> member_str(e, "id"@) == Some(id),
    decreases ex.len(),
{
    if ex.len() > 0 {
        lemma_last_with_id(ex.drop_last(), id);
    }
}

proof fn lemma_merged_entry_id(base: JsonTree, d: JsonTree)
    requires
        is_obj(base),
        entry_id(d).len() > 0,
    ensures
        entry_id(merged_object(base, d)) == entry_id(d),
{
    let k = "id"@;
    let kp = key_path(k);
    assert(member_str(d, k) is Some);
    assert(is_obj(d));
    assert(member_keys(d).contains(k));
    let m = merged_object(base, d);
    assert(under_key(kp, member_keys(d)));
    assert(!under_key(Seq::<JsonSeg>::empty(), member_keys(d)));
    assert(m.dom().contains(kp));
    assert(kp + Seq::<JsonSeg>::empty() =~= kp);
    assert(node_at(subtree(m, kp), Seq::empty()) == node_at(subtree(d, kp), Seq::empty()));
}

/// What the database part of the index holds: one entry for each thread of
/// the database that is listed, whose id is that thread's.
proof fn lemma_db_part_ids(db: Seq<JsonTree>, ex: Seq<JsonTree>, ids: Seq<String>)
    ensures
        forall|i: int| 0 <= i < db_part(db, ex, ids).len() ==> {
            let id = #[trigger] entry_id(db_part(db, ex, ids)[i]);
            id.len() > 0 && listed(ids, id) && db_ids(db, ids).contains(id)
        },
        forall|id: Seq<char>| db_ids(db, ids).contains(id) ==> ids_in(db_part(db, ex, ids)).contains(id),
        (forall|a: int, b: int|
            0 <= a < b < db.len() && entry_id(db[a]).len() > 0 && listed(ids, entry_id(db[a])) ==> entry_id(
                #[trigger] db[a],
            ) != entry_id(#[trigger] db[b])) ==> forall|a: int, b: int|
            0 <= a < b < db_part(db, ex, ids).len() ==> entry_id(#[trigger] db_part(db, ex, ids)[a])
                != entry_id(#[trigger] db_part(db, ex, ids)[b]),
    decreases db.len(),
{
    if db.len() > 0 {
        let d0 = db.drop_last();
        lemma_db_part_ids(d0, ex, ids);
        let before = db_part(d0, ex, ids);
        let last = db.last();
        let id = entry_id(last);
        let part = db_part(db, ex, ids);
        assert forall|x: Seq<char>| db_ids(d0, ids).contains(x) implies db_ids(db, ids).contains(x) by {
            let w = choose|w: int| 0 <= w < d0.len() && #[trigger] entry_id(d0[w]) == x && x.len() > 0 && listed(ids, x);
            assert(db[w] == d0[w]);
        }
        if id.len() > 0 && listed(ids, id) {
            let base = match last_with_id(ex, id) {
                Some(e) => e,
                None => empty_object(),
            };
            lemma_last_with_id(ex, id);
            assert(is_obj(base));
            lemma_merged_entry_id(base, last);
            assert(part == before.push(merged_object(base, last)));
            assert(entry_id(part[before.len() as int]) == id);
            assert(db_ids(db, ids).contains(id)) by {
                assert(entry_id(db[db.len() - 1]) == id);
            }
            assert forall|x: Seq<char>| db_ids(db, ids).contains(x) implies ids_in(part).contains(x) by {
                let w = choose|w: int| 0 <= w < db.len() && #[trigger] entry_id(db[w]) == x && x.len() > 0 && listed(ids, x);
                if w < db.len() - 1 {
                    assert(entry_id(d0[w]) == x);
                    assert(db_ids(d0, ids).contains(x));
                    assert(ids_in(before).contains(x));
                    let v = choose|v: int| 0 <= v < before.len() && #[trigger] entry_id(before[v]) == x;
                    assert(part[v] == before[v]);
                } else {
                    assert(entry_id(part[before.len() as int]) == x);
                }
            }
            if forall|a: int, b: int|
                0 <= a < b < db.len() && entry_id(db[a]).len() > 0 && listed(ids, entry_id(db[a])) ==> entry_id(
                    #[trigger] db[a],
                ) != entry_id(#[trigger] db[b]) {
                assert forall|a: int, b: int|
                    0 <= a < b < d0.len() && entry_id(d0[a]).len() > 0 && listed(ids, entry_id(d0[a])) implies entry_id(
                    #[trigger] d0[a],
                ) != entry_id(#[trigger] d0[b]) by {
                    assert(d0[a] == db[a] && d0[b] == db[b]);
                }
                assert forall|a: int, b: int| 0 <= a < b < part.len() implies entry_id(#[trigger] part[a])
                    != entry_id(#[trigger] part[b]) by {
                    if b == part.len() - 1 {
                        assert(part[a] == before[a]);
                        let x = entry_id(before[a]);
                        assert(db_ids(d0, ids).contains(x));
                        let w = choose|w: int| 0 <= w < d0.len() && #[trigger] entry_id(d0[w]) == x && x.len() > 0 && listed(ids, x);
                        assert(db[w] == d0[w]);
                        assert(entry_id(db[w]) != entry_id(db[db.len() - 1]));
                    } else {
                        assert(part[a] == before[a] && part[b] == before[b]);
                    }
                }
            }
        } else {
            assert(part == before);
            assert forall|x: Seq<char>| db_ids(db, ids).contains(x) implies ids_in(part).contains(x) by {
                let w = choose|w: int| 0 <= w < db.len() && #[trigger] entry_id(db[w]) == x && x.len() > 0 && listed(ids, x);
                if w < db.len() - 1 {
                    assert(entry_id(d0[w]) == x);
                    assert(db_ids(d0, ids).contains(x));
                }
            }
            if forall|a: int, b: int|
                0 <= a < b < db.len() && entry_id(db[a]).len() > 0 && listed(ids, entry_id(db[a])) ==> entry_id(
                    #[trigger] db[a],
                ) != entry_id(#[trigger] db[b]) {
                assert forall|a: int, b: int|
                    0 <= a < b < d0.len() && entry_id(d0[a]).len() > 0 && listed(ids, entry_id(d0[a])) implies entry_id(
                    #[trigger] d0[a],
                ) != entry_id(#[trigger] d0[b]) by {
                    assert(d0[a] == db[a] && d0[b] == db[b]);
                }
            }
        }
    }
}

/// What the index part holds: entries with listed ids, none in `seen`,
/// each id once.
proof fn lemma_ex_part_ids(ex: Seq<JsonTree>, ids: Seq<String>, seen: Set<Seq<char>>)
    ensures
        forall|i: int| 0 <= i < ex_part(ex, ids, seen).len() ==> {
            let id = #[trigger] entry_id(ex_part(ex, ids, seen)[i]);
            id.len() > 0 && listed(ids, id) && !seen.contains(id)
        },
        forall|a: int, b: int|
            0 <= a < b < ex_part(ex, ids, seen).len() ==> entry_id(#[trigger] ex_part(ex, ids, seen)[a])
                != entry_id(#[trigger] ex_part(ex, ids, seen)[b]),
    decreases ex.len(),
{
    if ex.len() > 0 {
        lemma_ex_part_ids(ex.drop_last(), ids, seen);
        let before = ex_part(ex.drop_last(), ids, seen);
        let part = ex_part(ex, ids, seen);
        if part != before {
            assert(part == before.push(ex.last()));
            assert forall|a: int, b: int| 0 <= a < b < part.len() implies entry_id(#[trigger] part[a])
                != entry_id(#[trigger] part[b]) by {
                if b == part.len() - 1 {
                    assert(part[a] == before[a]);
                    if entry_id(before[a]) == entry_id(ex.last()) {
                        assert(ids_in(before).contains(entry_id(ex.last())));
                    }
                } else {
                    assert(part[a] == before[a] && part[b] == before[b]);
                }
            }
            assert forall|i: int| 0 <= i < part.len() implies {
                let id = #[trigger] entry_id(part[i]);
                id.len() > 0 && listed(ids, id) && !seen.contains(id)
            } by {
                if i < before.len() {
                    assert(part[i] == before[i]);
                }
            }
        }
    }
}

/// The merged session index lists only threads that have a session file,
/// each with an id; and where the database lists each such thread once,
/// no thread is listed twice.
pub proof fn law_merged_index_threads(db: Seq<JsonTree>, ex: Seq<JsonTree>, ids: Seq<String>)
    ensures
        forall|i: int| 0 <= i < merged_index(db, ex, ids).len() ==> {
            let id = #[trigger] entry_id(merged_index(db, ex, ids)[i]);
            id.len() > 0 && listed(ids, id)
        },
        (forall|a: int, b: int|
            0 <= a < b < db.len() && entry_id(db[a]).len() > 0 && listed(ids, entry_id(db[a])) ==> entry_id(
                #[trigger] db[a],
            ) != entry_id(#[trigger] db[b])) ==> forall|a: int, b: int|
            0 <= a < b < merged_index(db, ex, ids).len() ==> entry_id(#[trigger] merged_index(db, ex, ids)[a])
                != entry_id(#[trigger] merged_index(db, ex, ids)[b]),
{
    lemma_db_part_ids(db, ex, ids);
    let seen = db_ids(db, ids);
    lemma_ex_part_ids(ex, ids, seen);
    let p1 = db_part(db, ex, ids);
    let p2 = ex_part(ex, ids, seen);
    let m = merged_index(db, ex, ids);
    assert forall|i: int| 0 <= i < m.len() implies {
        let id = #[trigger] entry_id(m[i]);
        id.len() > 0 && listed(ids, id)
    } by {
        if i < p1.len() {
            assert(m[i] == p1[i]);
        } else {
            assert(m[i] == p2[i - p1.len()]);
        }
    }
    if forall|a: int, b: int|
        0 <= a < b < db.len() && entry_id(db[a]).len() > 0 && listed(ids, entry_id(db[a])) ==> entry_id(
            #[trigger] db[a],
        ) != entry_id(#[trigger] db[b]) {
        assert forall|a: int, b: int| 0 <= a < b < m.len() implies entry_id(#[trigger] m[a]) != entry_id(
            #[trigger] m[b],
        ) by {
            if b < p1.len() {
                assert(m[a] == p1[a] && m[b] == p1[b]);
            } else if a >= p1.len() {
                assert(m[a] == p2[a - p1.len()] && m[b] == p2[b - p1.len()]);
            } else {
                assert(m[a] == p1[a] && m[b] == p2[b - p1.len()]);
            }
        }
    }
}

} // verus!
