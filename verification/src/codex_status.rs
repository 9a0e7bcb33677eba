//! Whether Codex is set up to use the remote provider while keeping ChatGPT
//! sign-in, read from `auth.json` and `config.toml`.
use vstd::prelude::*;

use crate::codex_auth::{chatgpt_auth, is_object};
use crate::profile::CodexProfile;
use crate::codex_config::{bucket, bucket_field, bucket_path, config_start, load_config, providers_path, set_node, with_provider};
use crate::json_value::{
    json_get, json_is_null, json_object, json_parse, json_parsed, json_tree, key_path, member,
    member_str, null_value, str_value, JsonNode, JsonTree, get_str,
};
use crate::text::{blank, is_blank, opt_string};
use crate::toml_doc::{get1, get2, get3, item_as_bool, item_as_table, item_text, lemma_item_node, toml_at, toml_new, toml_tree, TomlNode, TomlTree};
use crate::tree::{graft, leaf, lemma_graft_at, node_at};
use crate::RemoteCodexError;

verus! {

/// The readiness report.
#[derive(Clone, Debug, PartialEq, Eq)]
pub struct CodexRuntimeStatus {
    pub auth_mode_chatgpt: bool,
    pub openai_api_key_null: bool,
    pub current_provider: String,
    pub current_model: Option<String>,
    pub provider_configured: bool,
    pub provider_name: Option<String>,
    pub provider_requires_openai_auth: bool,
    pub provider_has_bearer_token: bool,
    pub ready_for_remote: bool,
}

/// The text at `p`, where a string stands there.
pub open spec fn str_node(t: TomlTree, p: Seq<Seq<char>>) -> Option<Seq<char>> {
    match node_at(t, p) {
        Some(TomlNode::Str(s)) => Some(s),
        _ => None,
    }
}

/// The provider the configuration names (`model_provider`), empty where it
/// names none.
pub open spec fn current_provider_in(t: TomlTree) -> Seq<char> {
    match str_node(t, seq!["model_provider"@]) {
        Some(s) => s,
        None => Seq::empty(),
    }
}

/// `[model_providers.<cp>]` is a standard table.
pub open spec fn provider_in(t: TomlTree, cp: Seq<char>) -> bool {
    node_at(t, seq!["model_providers"@]) == Some(TomlNode::Table) && node_at(
        t,
        seq!["model_providers"@, cp],
    ) == Some(TomlNode::Table)
}

/// The text of setting `f` of the provider entry `cp`.
pub open spec fn provider_str(t: TomlTree, cp: Seq<char>, f: Seq<char>) -> Option<Seq<char>> {
    if provider_in(t, cp) {
        str_node(t, seq!["model_providers"@, cp, f])
    } else {
        None
    }
}

pub open spec fn provider_requires_auth(t: TomlTree, cp: Seq<char>) -> bool {
    provider_in(t, cp) && node_at(t, seq!["model_providers"@, cp, "requires_openai_auth"@]) == Some(
        TomlNode::Bool(true),
    )
}

pub open spec fn provider_has_token(t: TomlTree, cp: Seq<char>) -> bool {
    provider_str(t, cp, "experimental_bearer_token"@) matches Some(s) && !is_blank(s)
}

pub open spec fn auth_is_chatgpt(a: JsonTree) -> bool {
    member_str(a, "auth_mode"@) == Some("chatgpt"@)
}

pub open spec fn api_key_is_null(a: JsonTree) -> bool {
    member(a, "OPENAI_API_KEY"@) matches Some(m) && node_at(m, Seq::empty()) == Some(JsonNode::Null)
}

/// Codex can use the remote provider: ChatGPT sign-in, no API key, and a
/// provider entry for the named provider that asks for OpenAI sign-in and
/// holds a token.
pub open spec fn ready(a: JsonTree, t: TomlTree) -> bool {
    let cp = current_provider_in(t);
    &&& auth_is_chatgpt(a)
    &&& api_key_is_null(a)
    &&& provider_in(t, cp)
    &&& provider_requires_auth(t, cp)
    &&& provider_has_token(t, cp)
}

/// `r` reports on the settings `a` (of `auth.json`) and `t` (of
/// `config.toml`).
pub open spec fn reports(r: CodexRuntimeStatus, a: JsonTree, t: TomlTree) -> bool {
    let cp = current_provider_in(t);
    &&& r.auth_mode_chatgpt == auth_is_chatgpt(a)
    &&& r.openai_api_key_null == api_key_is_null(a)
    &&& r.current_provider@ == cp
    &&& opt_string(r.current_model) == str_node(t, seq!["model"@])
    &&& r.provider_configured == provider_in(t, cp)
    &&& opt_string(r.provider_name) == provider_str(t, cp, "name"@)
    &&& r.provider_requires_openai_auth == provider_requires_auth(t, cp)
    &&& r.provider_has_bearer_token == provider_has_token(t, cp)
    &&& r.ready_for_remote == ready(a, t)
}

/// Reads the report off the two documents.
pub fn runtime_status(auth: &serde_json::Value, config: &toml_edit::DocumentMut) -> (r: CodexRuntimeStatus)
    ensures
        reports(r, json_tree(*auth), toml_tree(*config)),
{
    let ghost t = toml_tree(*config);
    let ghost a = json_tree(*auth);
    proof {
        reveal_strlit("model_provider");
        reveal_strlit("model");
        reveal_strlit("model_providers");
    }
    let current_provider = match item_text(get1(config, "model_provider")) {
        Some(s) => s,
        None => String::new(),
    };
    assert(current_provider@ == current_provider_in(t)) by {
        if t.dom().contains(seq!["model_provider"@]) {
            assert(seq!["model_provider"@] + Seq::<Seq<char>>::empty() =~= seq!["model_provider"@]);
        }
    }
    let current_model = item_text(get1(config, "model"));
    assert(opt_string(current_model) == str_node(t, seq!["model"@])) by {
        if t.dom().contains(seq!["model"@]) {
            assert(seq!["model"@] + Seq::<Seq<char>>::empty() =~= seq!["model"@]);
        }
    }
    let cp = current_provider.as_str();
    let provider_configured = match get2(config, "model_providers", cp) {
        Some(i) => {
            proof {
                lemma_item_node(*config, seq!["model_providers"@, cp@], *i);
            }
            item_as_table(i).is_some()
        },
        None => false,
    };
    let provider_name = if provider_configured {
        let v = item_text(get3(config, "model_providers", cp, "name"));
        assert(opt_string(v) == provider_str(t, cp@, "name"@)) by {
            let p = seq!["model_providers"@, cp@, "name"@];
            if t.dom().contains(p) {
                assert(p + Seq::<Seq<char>>::empty() =~= p);
            }
        }
        v
    } else {
        None
    };
    let provider_requires_openai_auth = if provider_configured {
        match get3(config, "model_providers", cp, "requires_openai_auth") {
            Some(i) => {
                proof {
                    lemma_item_node(*config, seq!["model_providers"@, cp@, "requires_openai_auth"@], *i);
                }
                match item_as_bool(i) {
                    Some(b) => b,
                    None => false,
                }
            },
            None => false,
        }
    } else {
        false
    };
    let provider_has_bearer_token = if provider_configured {
        let v = item_text(get3(config, "model_providers", cp, "experimental_bearer_token"));
        assert(opt_string(v) == provider_str(t, cp@, "experimental_bearer_token"@)) by {
            let p = seq!["model_providers"@, cp@, "experimental_bearer_token"@];
            if t.dom().contains(p) {
                assert(p + Seq::<Seq<char>>::empty() =~= p);
            }
        }
        match v {
            Some(token) => !blank(token.as_str()),
            None => false,
        }
    } else {
        false
    };
    let auth_mode_chatgpt = match get_str(auth, "auth_mode") {
        Some(mode) => crate::text::same_text(mode.as_str(), "chatgpt"),
        None => false,
    };
    let openai_api_key_null = match json_get(auth, "OPENAI_API_KEY") {
        Some(v) => json_is_null(v),
        None => false,
    };
    let ready_for_remote = auth_mode_chatgpt && openai_api_key_null && provider_configured
        && provider_requires_openai_auth && provider_has_bearer_token;
    CodexRuntimeStatus {
        auth_mode_chatgpt,
        openai_api_key_null,
        current_provider,
        current_model,
        provider_configured,
        provider_name,
        provider_requires_openai_auth,
        provider_has_bearer_token,
        ready_for_remote,
    }
}

/// The settings `auth.json` holds for the report, given its text (`None`
/// for a file that does not exist): an empty object where there is none.
pub open spec fn auth_start(text: Option<Seq<char>>) -> Option<JsonTree> {
    match text {
        None => Some(crate::json_value::empty_object()),
        Some(s) => json_parsed(s),
    }
}

/// The report, from the texts of `auth.json` and `config.toml` (`None` for a
/// file that does not exist).  A text that does not parse stops it, the
/// settings first.
pub fn runtime_status_from_texts(auth_text: Option<&str>, config_text: Option<&str>) -> (r: Result<
    CodexRuntimeStatus,
    RemoteCodexError,
>)
    ensures
        match auth_start(crate::text::opt_str(auth_text)) {
            None => r matches Err(RemoteCodexError::Json(_)),
            Some(a) => match config_text {
                Some(c) if config_start(c@) is None => r matches Err(RemoteCodexError::Toml(_)),
                _ => r matches Ok(s) && reports(
                    s,
                    a,
                    match config_text {
                        Some(c) => config_start(c@)->0,
                        None => crate::toml_doc::empty_tree(),
                    },
                ),
            },
        },
{
    let auth = match auth_text {
        Some(text) => match json_parse(text) {
            Ok(v) => v,
            Err(e) => {
                return Err(RemoteCodexError::Json(e));
            },
        },
        None => json_object(),
    };
    let config = match config_text {
        Some(text) => load_config(text)?,
        None => toml_new(),
    };
    Ok(runtime_status(&auth, &config))
}

/// The setting keys the provider edit writes differ from one another.
proof fn lemma_setting_keys_differ()
    ensures
        "model_provider"@ != "model"@,
        "model_provider"@ != "model_providers"@,
        "model"@ != "model_providers"@,
        "auth_mode"@ != "OPENAI_API_KEY"@,
        "requires_openai_auth"@ != "experimental_bearer_token"@,
        "name"@ != "experimental_bearer_token"@,
        "name"@ != "requires_openai_auth"@,
        "base_url"@ != "experimental_bearer_token"@,
        "base_url"@ != "requires_openai_auth"@,
        "wire_api"@ != "experimental_bearer_token"@,
        "wire_api"@ != "requires_openai_auth"@,
{
    reveal_strlit("model_provider");
    reveal_strlit("model");
    reveal_strlit("model_providers");
    reveal_strlit("auth_mode");
    reveal_strlit("OPENAI_API_KEY");
    reveal_strlit("requires_openai_auth");
    reveal_strlit("experimental_bearer_token");
    reveal_strlit("name");
    reveal_strlit("base_url");
    reveal_strlit("wire_api");
    assert("model_provider"@.len() == 14);
    assert("model"@.len() == 5);
    assert("model_providers"@.len() == 15);
    assert("auth_mode"@.len() == 9);
    assert("OPENAI_API_KEY"@.len() == 14);
    assert("requires_openai_auth"@.len() == 20);
    assert("experimental_bearer_token"@.len() == 25);
    assert("name"@.len() == 4);
    assert("base_url"@.len() == 8);
    assert("wire_api"@.len() == 8);
}

/// Activation makes Codex ready for the remote provider: once `auth.json`
/// (an object) is set to ChatGPT sign-in without an API key and
/// `config.toml` points at a profile that asks for OpenAI sign-in, with a
/// token that is not blank, the report says ready, whatever the two files
/// held before.
pub proof fn law_activation_is_ready(a: JsonTree, t: TomlTree, profile: CodexProfile, token: Seq<char>)
    requires
        is_object(a),
        profile.requires_openai_auth,
        !is_blank(token),
    ensures
        ready(chatgpt_auth(a), with_provider(t, profile, token)),
{
    lemma_setting_keys_differ();
    let ca = chatgpt_auth(a);
    let t9 = with_provider(t, profile, token);
    let mp = seq!["model_provider"@];
    assert(node_at(t9, mp) == Some(TomlNode::Str(bucket()))) by {
        crate::tree::lemma_graft_leaf_at(t, mp, TomlNode::Str(bucket()));
        crate::tree::lemma_single_prefix("model"@, mp);
        crate::tree::lemma_single_prefix("model_providers"@, mp);
        assert(!seq!["model"@].is_prefix_of(mp));
        assert(!providers_path().is_prefix_of(mp));
        assert(!bucket_path().is_prefix_of(mp));
    }
    assert(current_provider_in(t9) == bucket());
    assert(mp + Seq::<Seq<char>>::empty() =~= mp);
    assert(provider_in(t9, bucket())) by {
        let t1 = set_node(t, mp, TomlNode::Str(bucket()));
        let t2 = set_node(t1, seq!["model"@], TomlNode::Str(profile.model@));
        let t3 = crate::codex_config::ensure_table(t2, providers_path());
        let t4 = crate::codex_config::ensure_table(t3, bucket_path());
        crate::tree::lemma_graft_leaf_at(t2, providers_path(), TomlNode::Table);
        crate::tree::lemma_graft_leaf_at(t3, bucket_path(), TomlNode::Table);
        assert(node_at(t3, providers_path()) == Some(TomlNode::Table));
        assert(node_at(t4, providers_path()) == Some(TomlNode::Table));
        assert(node_at(t4, bucket_path()) == Some(TomlNode::Table));
    }
    let rp = bucket_field("requires_openai_auth"@);
    let tp = bucket_field("experimental_bearer_token"@);
    assert(node_at(t9, rp) == Some(TomlNode::Bool(true))) by {
        assert(!tp.is_prefix_of(rp)) by {
            if tp.is_prefix_of(rp) {
                assert(rp[2] == tp[2]);
            }
        }
        assert(rp.skip(3) =~= Seq::<Seq<char>>::empty());
    }
    assert(tp.skip(3) =~= Seq::<Seq<char>>::empty());
    assert(provider_str(t9, bucket(), "experimental_bearer_token"@) == Some(token));
    let am = key_path("auth_mode"@);
    let ak = key_path("OPENAI_API_KEY"@);
    assert(!ak.is_prefix_of(am)) by {
        if ak.is_prefix_of(am) {
            assert(am[0] == ak[0]);
        }
    }
    assert(!ak.is_prefix_of(Seq::<crate::json_value::JsonSeg>::empty()));
    assert(!am.is_prefix_of(Seq::<crate::json_value::JsonSeg>::empty()));
    assert(am.skip(1) =~= Seq::<crate::json_value::JsonSeg>::empty());
    assert(ak.skip(1) =~= Seq::<crate::json_value::JsonSeg>::empty());
    assert(am + Seq::<crate::json_value::JsonSeg>::empty() =~= am);
    assert(ak + Seq::<crate::json_value::JsonSeg>::empty() =~= ak);
    assert(auth_is_chatgpt(ca));
    assert(api_key_is_null(ca));
}

/// What activation writes to `auth.json` reads back as ready: where the
/// written text is read again as `u` (the edited settings up to the digits
/// of numbers), ChatGPT sign-in without an API key holds of `u`, and with
/// `config.toml` pointed at a profile that asks for OpenAI sign-in, with a
/// token that is not blank, the report on `u` says ready.
pub proof fn law_written_auth_reads_ready(
    a: JsonTree,
    u: JsonTree,
    t: TomlTree,
    profile: CodexProfile,
    token: Seq<char>,
)
    requires
        is_object(a),
        crate::json_value::same_but_digits(u, chatgpt_auth(a)),
        profile.requires_openai_auth,
        !is_blank(token),
    ensures
        auth_is_chatgpt(u),
        api_key_is_null(u),
        ready(u, with_provider(t, profile, token)),
{
    law_activation_is_ready(a, t, profile, token);
    let ca = chatgpt_auth(a);
    let e = Seq::<crate::json_value::JsonSeg>::empty();
    let am = crate::json_value::key_path("auth_mode"@);
    let ak = crate::json_value::key_path("OPENAI_API_KEY"@);
    assert(ca.dom().contains(e) && ca.dom().contains(am) && ca.dom().contains(ak));
    assert(u.dom().contains(e) && u.dom().contains(am) && u.dom().contains(ak));
    assert(u[e] == ca[e]);
    assert(u[am] == ca[am]);
    assert(u[ak] == ca[ak]);
    assert(am + e =~= am);
    assert(ak + e =~= ak);
}

} // verus!
