//! The edit made to Codex's `auth.json`: ChatGPT sign-in stays, the API key
//! goes.  Every other setting of the file is kept.
use vstd::prelude::*;

use crate::json_value::{
    container_at, same_but_digits, within_depth, empty_object, json_insert, json_is_object, json_null, json_object, json_parse, json_parsed,
    json_pretty_text, json_string, json_to_pretty, json_tree, key_path, null_value, str_value,
    JsonNode, JsonTree,
};
use crate::profile::is_message;
use crate::tree::{graft, node_at};
use crate::RemoteCodexError;

verus! {

/// The settings object `t` with `auth_mode` set to `chatgpt` and
/// `OPENAI_API_KEY` set to null.
pub open spec fn chatgpt_auth(t: JsonTree) -> JsonTree {
    graft(
        graft(t, key_path("auth_mode"@), str_value("chatgpt"@)),
        key_path("OPENAI_API_KEY"@),
        null_value(),
    )
}

/// The tree `t` is an object.
pub open spec fn is_object(t: JsonTree) -> bool {
    node_at(t, Seq::empty()) == Some(JsonNode::Obj)
}

/// The auth edit nests nothing deeper.
proof fn lemma_chatgpt_auth_depth(t: JsonTree)
    requires
        within_depth(t),
    ensures
        within_depth(chatgpt_auth(t)),
{
    let am = key_path("auth_mode"@);
    let ak = key_path("OPENAI_API_KEY"@);
    let t1 = graft(t, am, str_value("chatgpt"@));
    assert forall|p: Seq<crate::json_value::JsonSeg>| #[trigger] container_at(chatgpt_auth(t), p) implies p.len()
        <= 126 by {
        crate::tree::lemma_graft_at(t1, ak, null_value(), p);
        crate::tree::lemma_graft_at(t, am, str_value("chatgpt"@), p);
        if ak.is_prefix_of(p) || am.is_prefix_of(p) {
            assert(!container_at(chatgpt_auth(t), p));
        } else {
            assert(container_at(t, p));
        }
    }
}

/// Sets `auth_mode` to `chatgpt` and `OPENAI_API_KEY` to null.
pub fn force_chatgpt_auth(v: &mut serde_json::Value)
    requires
        node_at(json_tree(*old(v)), Seq::empty()) == Some(JsonNode::Obj),
    ensures
        json_tree(*final(v)) == chatgpt_auth(json_tree(*old(v))),
{
    let ghost t0 = json_tree(*v);
    json_insert(v, "auth_mode".to_string(), json_string("chatgpt".to_string()));
    assert(node_at(json_tree(*v), Seq::empty()) == Some(JsonNode::Obj)) by {
        assert(!key_path("auth_mode"@).is_prefix_of(Seq::<crate::json_value::JsonSeg>::empty()));
    }
    json_insert(v, "OPENAI_API_KEY".to_string(), json_null());
}

/// What `auth.json` holds after the edit, given its text (`None` for a file
/// that does not exist): the edited object, or the error that stops it.
pub fn chatgpt_auth_document(existing: Option<&str>) -> (r: Result<serde_json::Value, RemoteCodexError>)
    ensures
        match existing {
            None => r matches Ok(v) && json_tree(v) == chatgpt_auth(empty_object()),
            Some(text) => match json_parsed(text@) {
                None => r matches Err(RemoteCodexError::Json(_)),
                Some(t) => if node_at(t, Seq::empty()) == Some(JsonNode::Obj) {
                    r matches Ok(v) && json_tree(v) == chatgpt_auth(t)
                } else {
                    r matches Err(e) && is_message(e, "auth.json must be a JSON object"@)
                },
            },
        },
        r matches Ok(v) ==> within_depth(json_tree(v)),
{
    let mut object = match existing {
        Some(text) => {
            let value = match json_parse(text) {
                Ok(v) => v,
                Err(e) => {
                    return Err(RemoteCodexError::Json(e));
                },
            };
            if !json_is_object(&value) {
                return Err(RemoteCodexError::Message("auth.json must be a JSON object".to_string()));
            }
            value
        },
        None => json_object(),
    };
    proof {
        assert(within_depth(empty_object())) by {
            assert forall|p: Seq<crate::json_value::JsonSeg>| #[trigger] container_at(empty_object(), p) implies p.len()
                <= 126 by {
                if p.len() > 0 {
                    assert(!empty_object().dom().contains(p));
                }
            }
        }
        lemma_chatgpt_auth_depth(json_tree(object));
    }
    force_chatgpt_auth(&mut object);
    Ok(object)
}

/// The new text of `auth.json` whose text was `existing` (`None` for a file
/// that does not exist): the edited object, written by `serde_json` in its
/// indented form, with a final line feed.
pub fn apply_chatgpt_auth_text(existing: Option<&str>) -> (r: Result<String, RemoteCodexError>)
    ensures
        match existing {
            None => r matches Ok(s) && s@ == json_pretty_text(chatgpt_auth(empty_object())) + "\n"@,
            Some(text) => match json_parsed(text@) {
                None => r matches Err(RemoteCodexError::Json(_)),
                Some(t) => if node_at(t, Seq::empty()) == Some(JsonNode::Obj) {
                    r matches Ok(s) && s@ == json_pretty_text(chatgpt_auth(t)) + "\n"@
                } else {
                    r matches Err(e) && is_message(e, "auth.json must be a JSON object"@)
                },
            },
        },
        r matches Ok(s) ==> (json_parsed(s@) matches Some(u) && same_but_digits(
            u,
            chatgpt_auth(
                match existing {
                    None => empty_object(),
                    Some(text) => json_parsed(text@)->0,
                },
            ),
        )),
{
    let object = chatgpt_auth_document(existing)?;
    let written = json_to_pretty(&object);
    let mut out = match written {
        Ok(text) => text,
        Err(e) => {
            return Err(RemoteCodexError::Json(e));
        },
    };
    let ghost text = out@;
    out.append("\n");
    proof {
        reveal_strlit("\n");
        assert(out@ == text + "\n"@);
    }
    Ok(out)
}

/// The auth edit touches `auth_mode` and `OPENAI_API_KEY` only: every other
/// setting of the file is kept.
pub proof fn law_auth_keeps_other_settings(t: JsonTree, q: Seq<crate::json_value::JsonSeg>)
    requires
        !key_path("auth_mode"@).is_prefix_of(q),
        !key_path("OPENAI_API_KEY"@).is_prefix_of(q),
    ensures
        node_at(chatgpt_auth(t), q) == node_at(t, q),
{
    let t1 = graft(t, key_path("auth_mode"@), str_value("chatgpt"@));
    crate::tree::lemma_graft_at(t1, key_path("OPENAI_API_KEY"@), null_value(), q);
    crate::tree::lemma_graft_at(t, key_path("auth_mode"@), str_value("chatgpt"@), q);
}

/// Applying the auth edit twice is applying it once.
pub proof fn law_auth_edit_idempotent(t: JsonTree)
    ensures
        chatgpt_auth(chatgpt_auth(t)) == chatgpt_auth(t),
{
    let once = chatgpt_auth(t);
    let twice = chatgpt_auth(once);
    let am = key_path("auth_mode"@);
    let ak = key_path("OPENAI_API_KEY"@);
    assert forall|q: Seq<crate::json_value::JsonSeg>| #[trigger] node_at(twice, q) == node_at(once, q) by {
        let o1 = graft(once, am, str_value("chatgpt"@));
        let t1 = graft(t, am, str_value("chatgpt"@));
        crate::tree::lemma_graft_at(o1, ak, null_value(), q);
        crate::tree::lemma_graft_at(once, am, str_value("chatgpt"@), q);
        crate::tree::lemma_graft_at(t1, ak, null_value(), q);
        crate::tree::lemma_graft_at(t, am, str_value("chatgpt"@), q);
    }
    crate::tree::lemma_same_nodes(twice, once);
}

} // verus!
