//! The edits made to Codex's `config.toml`: pointing it at the remote
//! provider, and taking that provider out again.
//!
//! Every profile is written to the same provider entry,
//! `[model_providers.remote-codex-api]`; other settings of the file, and
//! unknown settings inside that entry, are kept.
use vstd::prelude::*;

use crate::profile::{is_message, profile_problem, validate_profile, CodexProfile};
use crate::text::{blank, is_blank};
use crate::toml_doc::{
    doc_insert_in, doc_remove, doc_remove_in, doc_set, doc_set_in, empty_tree, get1, get2,
    item_as_str, item_as_table, item_bool, item_str, item_table, lemma_item_node, table_is_empty,
    toml_at, toml_table_tree, toml_new, toml_parse, toml_parsed, toml_render, toml_text, toml_tree, TomlNode,
    TomlTree,
};
use crate::tree::{graft, leaf, lemma_graft_at, lemma_graft_leaf_at, lemma_prune_at, node_at, prune};
use crate::{RemoteCodexError, CODEX_PROVIDER_BUCKET_ID};

verus! {

pub open spec fn bucket() -> Seq<char> {
    CODEX_PROVIDER_BUCKET_ID@
}

/// `[model_providers]`.
pub open spec fn providers_path() -> Seq<Seq<char>> {
    seq!["model_providers"@]
}

/// `[model_providers.remote-codex-api]`.
pub open spec fn bucket_path() -> Seq<Seq<char>> {
    seq!["model_providers"@, bucket()]
}

/// A setting of the provider entry.
pub open spec fn bucket_field(field: Seq<char>) -> Seq<Seq<char>> {
    seq!["model_providers"@, bucket(), field]
}

/// `t` with the single node `n` at `p`, in place of whatever stood there.
pub open spec fn set_node(t: TomlTree, p: Seq<Seq<char>>, n: TomlNode) -> TomlTree {
    graft(t, p, leaf(n))
}

/// `t` with a standard table at `p`: kept where there is one, a new empty
/// one in place of anything else.
pub open spec fn ensure_table(t: TomlTree, p: Seq<Seq<char>>) -> TomlTree {
    if node_at(t, p) == Some(TomlNode::Table) {
        t
    } else {
        set_node(t, p, TomlNode::Table)
    }
}

/// The configuration `t` pointed at `profile`'s provider with `token`:
/// `model_provider` names the provider entry, `model` is the profile's
/// model, and the entry holds the profile's provider name and URL, the
/// `responses` wire API, whether OpenAI sign-in is needed, and the token.
pub open spec fn with_provider(t: TomlTree, profile: CodexProfile, token: Seq<char>) -> TomlTree {
    let t1 = set_node(t, seq!["model_provider"@], TomlNode::Str(bucket()));
    let t2 = set_node(t1, seq!["model"@], TomlNode::Str(profile.model@));
    let t3 = ensure_table(t2, providers_path());
    let t4 = ensure_table(t3, bucket_path());
    let t5 = set_node(t4, bucket_field("name"@), TomlNode::Str(profile.provider_name@));
    let t6 = set_node(t5, bucket_field("base_url"@), TomlNode::Str(profile.base_url@));
    let t7 = set_node(t6, bucket_field("wire_api"@), TomlNode::Str("responses"@));
    let t8 = set_node(
        t7,
        bucket_field("requires_openai_auth"@),
        TomlNode::Bool(profile.requires_openai_auth),
    );
    set_node(t8, bucket_field("experimental_bearer_token"@), TomlNode::Str(token))
}

/// What `set_node` leaves at a path.
pub proof fn lemma_set_node_at(t: TomlTree, p: Seq<Seq<char>>, n: TomlNode, q: Seq<Seq<char>>)
    ensures
        node_at(set_node(t, p, n), q) == if p.is_prefix_of(q) {
            if q == p {
                Some(n)
            } else {
                None
            }
        } else {
            node_at(t, q)
        },
{
    lemma_graft_at(t, p, leaf(n), q);
    if p.is_prefix_of(q) {
        if q.skip(p.len() as int) =~= Seq::<Seq<char>>::empty() {
            assert(q =~= p);
        }
        if q == p {
            assert(q.skip(p.len() as int) =~= Seq::<Seq<char>>::empty());
        }
    }
}

/// What `ensure_table` leaves at a path.
pub proof fn lemma_ensure_table_at(t: TomlTree, p: Seq<Seq<char>>, q: Seq<Seq<char>>)
    ensures
        node_at(ensure_table(t, p), q) == if p.is_prefix_of(q) {
            if q == p {
                Some(TomlNode::Table)
            } else if node_at(t, p) == Some(TomlNode::Table) {
                node_at(t, q)
            } else {
                None
            }
        } else {
            node_at(t, q)
        },
{
    lemma_set_node_at(t, p, TomlNode::Table, q);
}

/// The node the provider edit leaves at `q`: the written settings, the
/// provider tables (whose other entries are kept where they were tables
/// already), and everything else as it was.
pub open spec fn provider_node(t: TomlTree, profile: CodexProfile, token: Seq<char>, q: Seq<Seq<char>>) -> Option<TomlNode> {
    let written = |p: Seq<Seq<char>>, n: TomlNode| if q == p {
        Some(n)
    } else {
        None
    };
    if bucket_field("experimental_bearer_token"@).is_prefix_of(q) {
        written(bucket_field("experimental_bearer_token"@), TomlNode::Str(token))
    } else if bucket_field("requires_openai_auth"@).is_prefix_of(q) {
        written(bucket_field("requires_openai_auth"@), TomlNode::Bool(profile.requires_openai_auth))
    } else if bucket_field("wire_api"@).is_prefix_of(q) {
        written(bucket_field("wire_api"@), TomlNode::Str("responses"@))
    } else if bucket_field("base_url"@).is_prefix_of(q) {
        written(bucket_field("base_url"@), TomlNode::Str(profile.base_url@))
    } else if bucket_field("name"@).is_prefix_of(q) {
        written(bucket_field("name"@), TomlNode::Str(profile.provider_name@))
    } else if bucket_path().is_prefix_of(q) {
        if q == bucket_path() {
            Some(TomlNode::Table)
        } else if node_at(t, providers_path()) == Some(TomlNode::Table) && node_at(t, bucket_path())
            == Some(TomlNode::Table) {
            node_at(t, q)
        } else {
            None
        }
    } else if providers_path().is_prefix_of(q) {
        if q == providers_path() {
            Some(TomlNode::Table)
        } else if node_at(t, providers_path()) == Some(TomlNode::Table) {
            node_at(t, q)
        } else {
            None
        }
    } else if seq!["model"@].is_prefix_of(q) {
        written(seq!["model"@], TomlNode::Str(profile.model@))
    } else if seq!["model_provider"@].is_prefix_of(q) {
        written(seq!["model_provider"@], TomlNode::Str(bucket()))
    } else {
        node_at(t, q)
    }
}

proof fn lemma_top_keys_differ()
    ensures
        "model_provider"@ != "model"@,
        "model_provider"@ != "model_providers"@,
        "model"@ != "model_providers"@,
{
    reveal_strlit("model_provider");
    reveal_strlit("model");
    reveal_strlit("model_providers");
    assert("model_provider"@.len() == 14);
    assert("model"@.len() == 5);
    assert("model_providers"@.len() == 15);
}

/// The provider edit, path by path.
pub proof fn lemma_with_provider_at(t: TomlTree, profile: CodexProfile, token: Seq<char>, q: Seq<Seq<char>>)
    ensures
        node_at(with_provider(t, profile, token), q) == provider_node(t, profile, token, q),
{
    lemma_top_keys_differ();
    let mp = seq!["model_provider"@];
    let md = seq!["model"@];
    let t1 = set_node(t, mp, TomlNode::Str(bucket()));
    let t2 = set_node(t1, md, TomlNode::Str(profile.model@));
    let t3 = ensure_table(t2, providers_path());
    let t4 = ensure_table(t3, bucket_path());
    let t5 = set_node(t4, bucket_field("name"@), TomlNode::Str(profile.provider_name@));
    let t6 = set_node(t5, bucket_field("base_url"@), TomlNode::Str(profile.base_url@));
    let t7 = set_node(t6, bucket_field("wire_api"@), TomlNode::Str("responses"@));
    let t8 = set_node(t7, bucket_field("requires_openai_auth"@), TomlNode::Bool(profile.requires_openai_auth));
    lemma_set_node_at(t8, bucket_field("experimental_bearer_token"@), TomlNode::Str(token), q);
    lemma_set_node_at(t7, bucket_field("requires_openai_auth"@), TomlNode::Bool(profile.requires_openai_auth), q);
    lemma_set_node_at(t6, bucket_field("wire_api"@), TomlNode::Str("responses"@), q);
    lemma_set_node_at(t5, bucket_field("base_url"@), TomlNode::Str(profile.base_url@), q);
    lemma_set_node_at(t4, bucket_field("name"@), TomlNode::Str(profile.provider_name@), q);
    lemma_ensure_table_at(t3, bucket_path(), q);
    lemma_ensure_table_at(t2, providers_path(), q);
    lemma_ensure_table_at(t2, providers_path(), bucket_path());
    lemma_set_node_at(t1, md, TomlNode::Str(profile.model@), q);
    lemma_set_node_at(t, mp, TomlNode::Str(bucket()), q);
    lemma_set_node_at(t1, md, TomlNode::Str(profile.model@), providers_path());
    lemma_set_node_at(t, mp, TomlNode::Str(bucket()), providers_path());
    lemma_set_node_at(t1, md, TomlNode::Str(profile.model@), bucket_path());
    lemma_set_node_at(t, mp, TomlNode::Str(bucket()), bucket_path());
    crate::tree::lemma_single_prefix("model"@, providers_path());
    crate::tree::lemma_single_prefix("model_provider"@, providers_path());
    crate::tree::lemma_single_prefix("model"@, bucket_path());
    crate::tree::lemma_single_prefix("model_provider"@, bucket_path());
    crate::tree::lemma_single_prefix("model_providers"@, q);
    crate::tree::lemma_single_prefix("model"@, q);
    crate::tree::lemma_single_prefix("model_provider"@, q);
    assert(providers_path().is_prefix_of(bucket_path()));
    if bucket_path().is_prefix_of(q) {
        assert(q[0] == bucket_path()[0]);
    }
    if bucket_field("name"@).is_prefix_of(q) || bucket_field("base_url"@).is_prefix_of(q) || bucket_field(
        "wire_api"@,
    ).is_prefix_of(q) || bucket_field("requires_openai_auth"@).is_prefix_of(q) || bucket_field(
        "experimental_bearer_token"@,
    ).is_prefix_of(q) {
        assert(q.len() >= 3);
        assert(q[0] == "model_providers"@);
        assert(q[1] == bucket());
        assert(bucket_path().is_prefix_of(q)) by {
            assert(q.subrange(0, 2) =~= bucket_path());
        }
    }
}

/// The last activation wins: pointing the configuration at one profile and
/// then at another leaves it as pointing it at the second one alone would.
/// Every profile goes into the same provider entry.
pub proof fn law_last_activation_wins(
    t: TomlTree,
    first: CodexProfile,
    first_token: Seq<char>,
    second: CodexProfile,
    second_token: Seq<char>,
)
    ensures
        with_provider(with_provider(t, first, first_token), second, second_token) == with_provider(
            t,
            second,
            second_token,
        ),
{
    let w1 = with_provider(t, first, first_token);
    let lhs = with_provider(w1, second, second_token);
    let rhs = with_provider(t, second, second_token);
    lemma_with_provider_at(t, first, first_token, providers_path());
    lemma_with_provider_at(t, first, first_token, bucket_path());
    assert forall|q: Seq<Seq<char>>| #[trigger] node_at(lhs, q) == node_at(rhs, q) by {
        lemma_with_provider_at(w1, second, second_token, q);
        lemma_with_provider_at(t, second, second_token, q);
        lemma_with_provider_at(t, first, first_token, q);
        if bucket_path().is_prefix_of(q) {
            assert(providers_path().is_prefix_of(q)) by {
                assert(q.subrange(0, 1) =~= providers_path());
            }
        }
    }
    crate::tree::lemma_same_nodes(lhs, rhs);
}

/// Activation keeps what it does not write: every setting outside
/// `model_provider`, `model` and the five settings of the provider entry is
/// kept, including other provider entries and unknown settings of the entry
/// itself, where the tables holding them were tables.
pub proof fn law_activation_keeps_other_settings(t: TomlTree, profile: CodexProfile, token: Seq<char>, q: Seq<Seq<char>>)
    requires
        !seq!["model_provider"@].is_prefix_of(q),
        !seq!["model"@].is_prefix_of(q),
        !bucket_field("name"@).is_prefix_of(q),
        !bucket_field("base_url"@).is_prefix_of(q),
        !bucket_field("wire_api"@).is_prefix_of(q),
        !bucket_field("requires_openai_auth"@).is_prefix_of(q),
        !bucket_field("experimental_bearer_token"@).is_prefix_of(q),
        q != providers_path(),
        q != bucket_path(),
        providers_path().is_prefix_of(q) ==> node_at(t, providers_path()) == Some(TomlNode::Table),
        bucket_path().is_prefix_of(q) ==> node_at(t, bucket_path()) == Some(TomlNode::Table),
    ensures
        node_at(with_provider(t, profile, token), q) == node_at(t, q),
{
    lemma_with_provider_at(t, profile, token, q);
    if bucket_path().is_prefix_of(q) {
        assert(providers_path().is_prefix_of(q)) by {
            assert(q.subrange(0, 1) =~= providers_path());
        }
    }
}

/// The tree a configuration file starts from: no entries for a blank file,
/// else what its text parses to (`None` where it is not valid TOML).
pub open spec fn config_start(text: Seq<char>) -> Option<TomlTree> {
    if is_blank(text) {
        Some(empty_tree())
    } else {
        toml_parsed(text)
    }
}

/// Whether a standard table stands at `[a]`.
fn table_at1(doc: &toml_edit::DocumentMut, a: &str) -> (r: bool)
    ensures
        r == (toml_at(*doc, seq![a@]) == Some(TomlNode::Table)),
{
    match get1(doc, a) {
        Some(i) => {
            proof {
                lemma_item_node(*doc, seq![a@], *i);
            }
            item_as_table(i).is_some()
        },
        None => false,
    }
}

/// Whether a standard table stands at `[a]` and at `[a, b]`.
fn table_at2(doc: &toml_edit::DocumentMut, a: &str, b: &str) -> (r: bool)
    ensures
        r == (toml_at(*doc, seq![a@]) == Some(TomlNode::Table) && toml_at(*doc, seq![a@, b@])
            == Some(TomlNode::Table)),
{
    match get2(doc, a, b) {
        Some(i) => {
            proof {
                lemma_item_node(*doc, seq![a@, b@], *i);
            }
            item_as_table(i).is_some()
        },
        None => false,
    }
}

/// Points the document at `profile`'s provider, with `token`.
pub fn configure_provider(doc: &mut toml_edit::DocumentMut, profile: &CodexProfile, token: &str)
    ensures
        toml_tree(*final(doc)) == with_provider(toml_tree(*old(doc)), *profile, token@),
{
    let ghost t0 = toml_tree(*doc);
    proof {
        reveal_strlit("model_provider");
        reveal_strlit("model");
        reveal_strlit("model_providers");
        reveal_strlit("remote-codex-api");
        reveal_strlit("name");
        reveal_strlit("base_url");
        reveal_strlit("wire_api");
        reveal_strlit("requires_openai_auth");
        reveal_strlit("experimental_bearer_token");
    }
    doc_set(doc, "model_provider", item_str(CODEX_PROVIDER_BUCKET_ID));
    doc_set(doc, "model", item_str(profile.model.as_str()));
    let ghost t2 = toml_tree(*doc);
    if !table_at1(doc, "model_providers") {
        doc_set(doc, "model_providers", item_table());
    }
    let ghost t3 = toml_tree(*doc);
    assert(t3 == ensure_table(t2, providers_path()));
    proof {
        lemma_graft_leaf_at(t2, providers_path(), TomlNode::Table);
        assert(node_at(t3, providers_path()) == Some(TomlNode::Table));
    }
    if !table_at2(doc, "model_providers", CODEX_PROVIDER_BUCKET_ID) {
        doc_insert_in(doc, "model_providers", CODEX_PROVIDER_BUCKET_ID, item_table());
    }
    let ghost t4 = toml_tree(*doc);
    assert(t4 == ensure_table(t3, bucket_path()));
    proof {
        lemma_graft_leaf_at(t3, bucket_path(), TomlNode::Table);
        lemma_graft_at(t3, bucket_path(), leaf(TomlNode::Table), providers_path());
        assert(node_at(t4, providers_path()) == Some(TomlNode::Table));
        assert(node_at(t4, bucket_path()) == Some(TomlNode::Table));
    }
    doc_set_in(doc, "model_providers", CODEX_PROVIDER_BUCKET_ID, "name", item_str(profile.provider_name.as_str()));
    proof {
        let t = toml_tree(*doc);
        lemma_graft_at(t4, bucket_field("name"@), leaf(TomlNode::Str(profile.provider_name@)), providers_path());
        lemma_graft_at(t4, bucket_field("name"@), leaf(TomlNode::Str(profile.provider_name@)), bucket_path());
    }
    let ghost t5 = toml_tree(*doc);
    doc_set_in(doc, "model_providers", CODEX_PROVIDER_BUCKET_ID, "base_url", item_str(profile.base_url.as_str()));
    proof {
        lemma_graft_at(t5, bucket_field("base_url"@), leaf(TomlNode::Str(profile.base_url@)), providers_path());
        lemma_graft_at(t5, bucket_field("base_url"@), leaf(TomlNode::Str(profile.base_url@)), bucket_path());
    }
    let ghost t6 = toml_tree(*doc);
    doc_set_in(doc, "model_providers", CODEX_PROVIDER_BUCKET_ID, "wire_api", item_str("responses"));
    proof {
        lemma_graft_at(t6, bucket_field("wire_api"@), leaf(TomlNode::Str("responses"@)), providers_path());
        lemma_graft_at(t6, bucket_field("wire_api"@), leaf(TomlNode::Str("responses"@)), bucket_path());
    }
    let ghost t7 = toml_tree(*doc);
    doc_set_in(
        doc,
        "model_providers",
        CODEX_PROVIDER_BUCKET_ID,
        "requires_openai_auth",
        item_bool(profile.requires_openai_auth),
    );
    proof {
        let n = TomlNode::Bool(profile.requires_openai_auth);
        lemma_graft_at(t7, bucket_field("requires_openai_auth"@), leaf(n), providers_path());
        lemma_graft_at(t7, bucket_field("requires_openai_auth"@), leaf(n), bucket_path());
    }
    doc_set_in(doc, "model_providers", CODEX_PROVIDER_BUCKET_ID, "experimental_bearer_token", item_str(token));
}

/// Opens a configuration file's text: a blank text gives an empty document.
pub fn load_config(text: &str) -> (r: Result<toml_edit::DocumentMut, RemoteCodexError>)
    ensures
        match config_start(text@) {
            Some(t) => r matches Ok(d) && toml_tree(d) == t,
            None => r matches Err(RemoteCodexError::Toml(_)),
        },
{
    if blank(text) {
        Ok(toml_new())
    } else {
        match toml_parse(text) {
            Ok(d) => Ok(d),
            Err(e) => Err(RemoteCodexError::Toml(e)),
        }
    }
}

/// The configuration document of `existing` pointed at `profile`'s provider:
/// a profile that breaks a rule is refused first, then a text that is not
/// TOML.
pub fn provider_config_document(existing: &str, profile: &CodexProfile, token: &str) -> (r: Result<
    toml_edit::DocumentMut,
    RemoteCodexError,
>)
    ensures
        match profile_problem(*profile) {
            Some(m) => r matches Err(e) && is_message(e, m),
            None => match config_start(existing@) {
                Some(t) => r matches Ok(d) && toml_tree(d) == with_provider(t, *profile, token@),
                None => r matches Err(RemoteCodexError::Toml(_)),
            },
        },
{
    validate_profile(profile)?;
    let mut doc = load_config(existing)?;
    configure_provider(&mut doc, profile, token);
    Ok(doc)
}

/// The new text of a configuration file whose text was `existing` (empty for
/// a file that does not exist), pointed at `profile`'s provider.
pub fn apply_provider_config_text(existing: &str, profile: &CodexProfile, token: &str) -> (r: Result<
    String,
    RemoteCodexError,
>)
    ensures
        r is Ok <==> (profile_problem(*profile) is None && config_start(existing@) is Some),
        profile_problem(*profile) matches Some(m) ==> r matches Err(e) && is_message(e, m),
        (profile_problem(*profile) is None && config_start(existing@) is None) ==> r matches Err(
            RemoteCodexError::Toml(_),
        ),
        r matches Ok(s) ==> exists|d: toml_edit::DocumentMut|
            #[trigger] toml_text(d) == s@ && toml_tree(d) == with_provider(
                config_start(existing@)->0,
                *profile,
                token@,
            ),
{
    let doc = provider_config_document(existing, profile, token)?;
    let text = toml_render(&doc);
    assert(toml_text(doc) == text@);
    Ok(text)
}

// ---------------------------------------------------------------------------
// Taking the provider out
// ---------------------------------------------------------------------------

/// Some path strictly below `p` is in `t`.
pub open spec fn has_entries(t: TomlTree, p: Seq<Seq<char>>) -> bool {
    exists|q: Seq<Seq<char>>| q.len() > p.len() && p.is_prefix_of(q) && #[trigger] t.dom().contains(q)
}

/// The configuration `t` without the remote provider: `model_provider` goes
/// where it names the provider entry, the entry goes, and `model_providers`
/// goes where it is left empty.
pub open spec fn without_provider(t: TomlTree) -> TomlTree {
    let t1 = if node_at(t, seq!["model_provider"@]) == Some(TomlNode::Str(bucket())) {
        prune(t, seq!["model_provider"@])
    } else {
        t
    };
    if node_at(t1, providers_path()) == Some(TomlNode::Table) {
        let t2 = prune(t1, bucket_path());
        if has_entries(t2, providers_path()) {
            t2
        } else {
            prune(t2, providers_path())
        }
    } else {
        t1
    }
}

/// Takes the remote provider out of the document.
pub fn clear_provider(doc: &mut toml_edit::DocumentMut)
    ensures
        toml_tree(*final(doc)) == without_provider(toml_tree(*old(doc))),
{
    proof {
        reveal_strlit("model_provider");
        reveal_strlit("model_providers");
        reveal_strlit("remote-codex-api");
    }
    let ghost t0 = toml_tree(*doc);
    let names_bucket = match get1(doc, "model_provider") {
        Some(i) => {
            proof {
                lemma_item_node(*doc, seq!["model_provider"@], *i);
            }
            match item_as_str(i) {
                Some(p) => crate::text::same_text(p, CODEX_PROVIDER_BUCKET_ID),
                None => false,
            }
        },
        None => false,
    };
    assert(names_bucket == (node_at(t0, seq!["model_provider"@]) == Some(TomlNode::Str(bucket()))));
    if names_bucket {
        doc_remove(doc, "model_provider");
    }
    let ghost t1 = toml_tree(*doc);
    if table_at1(doc, "model_providers") {
        doc_remove_in(doc, "model_providers", CODEX_PROVIDER_BUCKET_ID);
        let ghost t2 = toml_tree(*doc);
        proof {
            lemma_prune_at(t1, bucket_path(), providers_path());
        }
        let mut empty = false;
        if let Some(i) = get1(doc, "model_providers") {
            proof {
                lemma_item_node(*doc, providers_path(), *i);
            }
            if let Some(t) = item_as_table(i) {
                empty = table_is_empty(t);
                proof {
                    let p = providers_path();
                    let tt = toml_table_tree(*t);
                    if empty {
                        assert(!has_entries(t2, p)) by {
                            if has_entries(t2, p) {
                                let q = choose|q: Seq<Seq<char>>| q.len() > p.len() && p.is_prefix_of(q) && #[trigger] t2.dom().contains(q);
                                let rest = q.skip(1);
                                assert(p + rest =~= q);
                                assert(rest != Seq::<Seq<char>>::empty());
                                assert(tt.dom().contains(rest));
                            }
                        }
                    } else {
                        assert(has_entries(t2, p)) by {
                            if !has_entries(t2, p) {
                                assert forall|k: Seq<Seq<char>>| !tt.dom().contains(k) by {
                                    if tt.dom().contains(k) {
                                        assert(k != Seq::<Seq<char>>::empty());
                                        if k.len() == 0 {
                                            assert(k =~= Seq::<Seq<char>>::empty());
                                        }
                                        assert(t2.dom().contains(p + k));
                                        assert((p + k).len() > p.len());
                                        assert(p.is_prefix_of(p + k)) by {
                                            assert((p + k).subrange(0, p.len() as int) =~= p);
                                        }
                                    }
                                }
                                assert(tt =~= empty_tree());
                            }
                        }
                    }
                }
            }
        }
        if empty {
            doc_remove(doc, "model_providers");
        }
    }
}

} // verus!

verus! {

/// The configuration document of `existing` without the remote provider.
pub fn cleared_config_document(existing: &str) -> (r: Result<toml_edit::DocumentMut, RemoteCodexError>)
    ensures
        match config_start(existing@) {
            Some(t) => r matches Ok(d) && toml_tree(d) == without_provider(t),
            None => r matches Err(RemoteCodexError::Toml(_)),
        },
{
    let mut doc = load_config(existing)?;
    clear_provider(&mut doc);
    Ok(doc)
}

/// The new text of a configuration file whose text was `existing` (empty for
/// a file that does not exist), without the remote provider.
pub fn clear_remote_provider_config_text(existing: &str) -> (r: Result<String, RemoteCodexError>)
    ensures
        r is Ok <==> config_start(existing@) is Some,
        config_start(existing@) is None ==> r matches Err(RemoteCodexError::Toml(_)),
        r matches Ok(s) ==> exists|d: toml_edit::DocumentMut|
            #[trigger] toml_text(d) == s@ && toml_tree(d) == without_provider(config_start(existing@)->0),
{
    let doc = cleared_config_document(existing)?;
    let text = toml_render(&doc);
    assert(toml_text(doc) == text@);
    Ok(text)
}

/// Taking the provider out leaves Codex pointing at no remote provider
/// entry: `model_provider` does not name it and the entry is gone.
pub proof fn law_clear_removes_remote_provider(t: TomlTree)
    ensures
        node_at(without_provider(t), seq!["model_provider"@]) != Some(TomlNode::Str(bucket())),
        !(node_at(without_provider(t), providers_path()) == Some(TomlNode::Table) && node_at(
            without_provider(t),
            bucket_path(),
        ) == Some(TomlNode::Table)),
{
    lemma_top_keys_differ();
    let mp = seq!["model_provider"@];
    let t1 = if node_at(t, mp) == Some(TomlNode::Str(bucket())) {
        prune(t, mp)
    } else {
        t
    };
    crate::tree::lemma_single_prefix("model_providers"@, mp);
    crate::tree::lemma_single_prefix("model_provider"@, mp);
    lemma_prune_at(t, mp, mp);
    assert(mp.is_prefix_of(mp));
    if node_at(t1, providers_path()) == Some(TomlNode::Table) {
        let t2 = prune(t1, bucket_path());
        lemma_prune_at(t1, bucket_path(), mp);
        lemma_prune_at(t1, bucket_path(), bucket_path());
        assert(bucket_path().is_prefix_of(bucket_path()));
        if !has_entries(t2, providers_path()) {
            lemma_prune_at(t2, providers_path(), mp);
            lemma_prune_at(t2, providers_path(), providers_path());
            assert(providers_path().is_prefix_of(providers_path()));
        }
    }
}

/// Taking the provider out keeps every other setting: all but
/// `model_provider` where it names the provider entry, the entry itself,
/// and the `model_providers` table.
pub proof fn law_clear_keeps_other_settings(t: TomlTree, q: Seq<Seq<char>>)
    requires
        seq!["model_provider"@].is_prefix_of(q) ==> node_at(t, seq!["model_provider"@]) != Some(
            TomlNode::Str(bucket()),
        ),
        !bucket_path().is_prefix_of(q),
        q != providers_path(),
    ensures
        node_at(without_provider(t), q) == node_at(t, q),
{
    lemma_top_keys_differ();
    let mp = seq!["model_provider"@];
    let t1 = if node_at(t, mp) == Some(TomlNode::Str(bucket())) {
        prune(t, mp)
    } else {
        t
    };
    lemma_prune_at(t, mp, q);
    if node_at(t1, providers_path()) == Some(TomlNode::Table) {
        let t2 = prune(t1, bucket_path());
        lemma_prune_at(t1, bucket_path(), q);
        if !has_entries(t2, providers_path()) {
            lemma_prune_at(t2, providers_path(), q);
            if providers_path().is_prefix_of(q) && t2.dom().contains(q) {
                assert(q.len() > providers_path().len()) by {
                    if q.len() == providers_path().len() {
                        assert(q =~= providers_path());
                    }
                }
                assert(has_entries(t2, providers_path()));
            }
        }
    }
}

} // verus!
