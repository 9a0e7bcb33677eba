//! The desktop client's global state file: the workspace each thread is
//! shown under, the order of projects, the saved workspace roots and the
//! threads that belong to no project, rebuilt from the database's threads
//! and the workspace roots the user saved.
use vstd::prelude::*;

use crate::history::{is_obj, listed};
use crate::json_value::{
    array_tree, json_array, json_insert, json_is_object, json_object, json_parse, json_parsed,
    json_pretty_text, json_string, json_to_pretty, json_tree, key_path, str_array, str_value,
    JsonNode, JsonSeg, JsonTree,
};
use crate::order::{lemma_sorted_listing, sorted_listing, strictly_sorted};
use crate::text::{blank, is_blank, opt_string, replacement, same_text, str_trim, str_trim_end_seps, trim, trim_end_seps};
use crate::text_set::{insert_text, remove_text, texts};
use crate::tree::{graft, lemma_single_prefix};
use crate::RemoteCodexError;

verus! {

/// The threads among `rows` (thread id, working directory) whose ids are in
/// `ids`, in order.
pub open spec fn with_session_files(rows: Seq<(String, String)>, ids: Seq<String>) -> Seq<(String, String)>
    decreases rows.len(),
{
    if rows.len() == 0 {
        Seq::empty()
    } else {
        let before = with_session_files(rows.drop_last(), ids);
        if listed(ids, rows.last().0@) {
            before.push(rows.last())
        } else {
            before
        }
    }
}

/// Keeps the threads that have a session file.
pub fn threads_with_session_files(rows: &Vec<(String, String)>, ids: &Vec<String>) -> (r: Vec<(String, String)>)
    ensures
        r@ == with_session_files(rows@, ids@),
{
    let mut out: Vec<(String, String)> = Vec::new();
    let mut i: usize = 0;
    while i < rows.len()
        invariant
            i <= rows@.len(),
            out@ == with_session_files(rows@.take(i as int), ids@),
        decreases rows@.len() - i,
    {
        assert(rows@.take(i + 1).drop_last() =~= rows@.take(i as int));
        if crate::history::listed_in(ids, rows[i].0.as_str()) {
            out.push((rows[i].0.clone(), rows[i].1.clone()));
        }
        i = i + 1;
    }
    assert(rows@.take(rows@.len() as int) =~= rows@);
    out
}

/// The working directory each thread was last seen with, for the threads
/// whose directory is not blank.
pub open spec fn hints_of(es: Seq<(String, String)>) -> Map<Seq<char>, Seq<char>>
    decreases es.len(),
{
    if es.len() == 0 {
        Map::empty()
    } else {
        let before = hints_of(es.drop_last());
        if is_blank(es.last().1@) {
            before
        } else {
            before.insert(es.last().0@, es.last().1@)
        }
    }
}

/// The threads whose last directory is blank.
pub open spec fn projectless_of(es: Seq<(String, String)>) -> Set<Seq<char>>
    decreases es.len(),
{
    if es.len() == 0 {
        Set::empty()
    } else {
        let before = projectless_of(es.drop_last());
        if is_blank(es.last().1@) {
            before.insert(es.last().0@)
        } else {
            before.remove(es.last().0@)
        }
    }
}

/// The directories, not blank, that threads were seen with.
pub open spec fn thread_dirs(es: Seq<(String, String)>) -> Set<Seq<char>>
    decreases es.len(),
{
    if es.len() == 0 {
        Set::empty()
    } else {
        let before = thread_dirs(es.drop_last());
        if is_blank(es.last().1@) {
            before
        } else {
            before.insert(es.last().1@)
        }
    }
}

proof fn lemma_hints_in_dirs(es: Seq<(String, String)>)
    ensures
        forall|k: Seq<char>| #[trigger] hints_of(es).dom().contains(k) ==> thread_dirs(es).contains(hints_of(es)[k])
            && !is_blank(hints_of(es)[k]),
    decreases es.len(),
{
    if es.len() > 0 {
        let d = es.drop_last();
        lemma_hints_in_dirs(d);
        assert forall|k: Seq<char>| #[trigger] hints_of(es).dom().contains(k) implies thread_dirs(es).contains(
            hints_of(es)[k],
        ) && !is_blank(hints_of(es)[k]) by {
            if !is_blank(es.last().1@) && k != es.last().0@ {
                assert(hints_of(d).dom().contains(k));
            }
            if is_blank(es.last().1@) {
                assert(hints_of(d).dom().contains(k));
            }
        }
    }
}

/// Every thread the state places under a workspace is placed under one of
/// the listed projects, by a directory that is not blank; and a thread
/// whose last directory is blank is listed as without a project.
pub proof fn law_hints_are_listed_projects(es: Seq<(String, String)>, roots: Seq<String>)
    ensures
        forall|k: Seq<char>| #[trigger] hints_of(es).dom().contains(k) ==> (thread_dirs(es) + saved_dirs(
            roots,
        )).contains(hints_of(es)[k]) && !is_blank(hints_of(es)[k]),
        es.len() > 0 && is_blank(es.last().1@) ==> projectless_of(es).contains(es.last().0@),
        es.len() > 0 && !is_blank(es.last().1@) ==> !projectless_of(es).contains(es.last().0@),
{
    lemma_hints_in_dirs(es);
}

/// A saved workspace root as written to the state: trimmed, without
/// trailing separators.
pub open spec fn root_text(root: Seq<char>) -> Seq<char> {
    trim_end_seps(trim(root))
}

/// The saved workspace roots that are not empty once written.
pub open spec fn saved_dirs(roots: Seq<String>) -> Set<Seq<char>>
    decreases roots.len(),
{
    if roots.len() == 0 {
        Set::empty()
    } else {
        let before = saved_dirs(roots.drop_last());
        let t = root_text(roots.last()@);
        if t.len() == 0 {
            before
        } else {
            before.insert(t)
        }
    }
}

/// An object whose members are the strings of `m`.
pub open spec fn str_object(m: Map<Seq<char>, Seq<char>>) -> JsonTree {
    Map::new(
        |q: Seq<JsonSeg>| q.len() == 0 || (q.len() == 1 && q[0] is Key && m.dom().contains(q[0]->Key_0)),
        |q: Seq<JsonSeg>|
            if q.len() == 0 {
                JsonNode::Obj
            } else {
                JsonNode::Str(m[q[0]->Key_0])
            },
    )
}

/// The state document the rebuild starts from: the file's value where it is
/// an object, an empty object otherwise.
pub open spec fn state_base(state: Option<JsonTree>) -> JsonTree {
    match state {
        Some(t) => if is_obj(t) {
            t
        } else {
            crate::json_value::empty_object()
        },
        None => crate::json_value::empty_object(),
    }
}

/// The rebuilt state: the four members below replaced, every other member
/// kept.  The project order and the saved workspace roots are the same
/// sorted list: the thread directories and the saved roots.
pub open spec fn synced_state(state: Option<JsonTree>, es: Seq<(String, String)>, roots: Seq<String>) -> JsonTree {
    let dirs = sorted_listing(thread_dirs(es) + saved_dirs(roots));
    graft(
        graft(
            graft(
                graft(state_base(state), key_path("thread-workspace-root-hints"@), str_object(hints_of(es))),
                key_path("project-order"@),
                str_array(dirs),
            ),
            key_path("electron-saved-workspace-roots"@),
            str_array(dirs),
        ),
        key_path("projectless-thread-ids"@),
        str_array(sorted_listing(projectless_of(es))),
    )
}

/// A JSON array of the strings of `v`.
pub fn text_array(v: &Vec<String>) -> (r: serde_json::Value)
    ensures
        json_tree(r) == str_array(texts(v@)),
{
    let mut items: Vec<serde_json::Value> = Vec::new();
    let mut i: usize = 0;
    while i < v.len()
        invariant
            i <= v@.len(),
            items@.len() == i,
            forall|j: int| 0 <= j < i ==> json_tree(#[trigger] items@[j]) == str_value(v@[j]@),
        decreases v@.len() - i,
    {
        items.push(json_string(v[i].clone()));
        i = i + 1;
    }
    let ghost elems = items@.map_values(|x: serde_json::Value| json_tree(x));
    assert(elems =~= texts(v@).map_values(|s: Seq<char>| str_value(s)));
    json_array(items)
}

proof fn lemma_hint_insert(m: Map<Seq<char>, Seq<char>>, k: Seq<char>, v: Seq<char>)
    ensures
        graft(str_object(m), key_path(k), str_value(v)) == str_object(m.insert(k, v)),
{
    let g = graft(str_object(m), key_path(k), str_value(v));
    let o = str_object(m.insert(k, v));
    assert forall|q: Seq<JsonSeg>| true implies #[trigger] g.dom().contains(q) == o.dom().contains(q) && (g.dom().contains(q) ==> g[q] == o[q]) by {
        lemma_single_prefix(JsonSeg::Key(k), q);
        if q.len() == 1 {
            assert(q.skip(1) =~= Seq::<JsonSeg>::empty());
        }
    }
    assert(g =~= o);
}

/// The tree of an optional value.
pub open spec fn opt_tree(v: Option<serde_json::Value>) -> Option<JsonTree> {
    match v {
        Some(x) => Some(json_tree(x)),
        None => None,
    }
}

/// Rebuilds the global state `state` (`None` where there is no file) from
/// the threads `entries` (thread id, working directory; those with session
/// files) and the saved workspace roots `roots`.
pub fn synced_global_state(
    state: Option<serde_json::Value>,
    entries: &Vec<(String, String)>,
    roots: &Vec<String>,
) -> (r: serde_json::Value)
    ensures
        json_tree(r) == synced_state(opt_tree(state), entries@, roots@),
{
    let ghost st = opt_tree(state);
    let mut object = match state {
        Some(v) => if json_is_object(&v) {
            v
        } else {
            json_object()
        },
        None => json_object(),
    };
    let mut hints = json_object();
    let mut dirs: Vec<String> = Vec::new();
    let mut projectless: Vec<String> = Vec::new();
    assert forall|q: Seq<JsonSeg>| #[trigger] str_object(Map::empty()).dom().contains(q) implies q == Seq::<JsonSeg>::empty() by {
        assert(q =~= Seq::<JsonSeg>::empty());
    }
    assert(json_tree(hints) =~= str_object(Map::empty()));
    let mut i: usize = 0;
    while i < entries.len()
        invariant
            i <= entries@.len(),
            json_tree(hints) == str_object(hints_of(entries@.take(i as int))),
            strictly_sorted(texts(dirs@)),
            texts(dirs@).to_set() == thread_dirs(entries@.take(i as int)),
            strictly_sorted(texts(projectless@)),
            texts(projectless@).to_set() == projectless_of(entries@.take(i as int)),
        decreases entries@.len() - i,
    {
        let ghost s = entries@.take(i + 1);
        assert(s.drop_last() =~= entries@.take(i as int));
        assert(s.last() == entries@[i as int]);
        let thread_id = &entries[i].0;
        let cwd = &entries[i].1;
        if blank(cwd.as_str()) {
            insert_text(&mut projectless, thread_id.clone());
        } else {
            proof {
                lemma_hint_insert(hints_of(entries@.take(i as int)), thread_id@, cwd@);
            }
            json_insert(&mut hints, thread_id.clone(), json_string(cwd.clone()));
            insert_text(&mut dirs, cwd.clone());
            remove_text(&mut projectless, thread_id.as_str());
        }
        i = i + 1;
    }
    assert(entries@.take(entries@.len() as int) =~= entries@);
    let mut j: usize = 0;
    while j < roots.len()
        invariant
            j <= roots@.len(),
            strictly_sorted(texts(dirs@)),
            texts(dirs@).to_set() == thread_dirs(entries@) + saved_dirs(roots@.take(j as int)),
        decreases roots@.len() - j,
    {
        let ghost s = roots@.take(j + 1);
        assert(s.drop_last() =~= roots@.take(j as int));
        assert(s.last() == roots@[j as int]);
        let root = str_trim_end_seps(str_trim(roots[j].as_str()));
        if root.unicode_len() > 0 {
            insert_text(&mut dirs, root.to_string());
            assert(texts(dirs@).to_set() =~= thread_dirs(entries@) + saved_dirs(s));
        } else {
            assert(saved_dirs(s) == saved_dirs(roots@.take(j as int)));
        }
        j = j + 1;
    }
    assert(roots@.take(roots@.len() as int) =~= roots@);
    proof {
        lemma_sorted_listing(texts(dirs@));
        lemma_sorted_listing(texts(projectless@));
    }
    json_insert(&mut object, "thread-workspace-root-hints".to_string(), hints);
    json_insert(&mut object, "project-order".to_string(), text_array(&dirs));
    json_insert(&mut object, "electron-saved-workspace-roots".to_string(), text_array(&dirs));
    json_insert(&mut object, "projectless-thread-ids".to_string(), text_array(&projectless));
    object
}

/// The text written for the rebuilt state: `serde_json`'s indented form and
/// a final line feed.
pub open spec fn state_text(state: Option<JsonTree>, es: Seq<(String, String)>, roots: Seq<String>) -> Seq<char> {
    json_pretty_text(synced_state(state, es, roots)) + "\n"@
}

/// The new text of the global state file whose text is `existing` (`None`
/// where there is no file), or `None` where it is to stay as it is.
pub fn global_state_update(existing: Option<&str>, entries: &Vec<(String, String)>, roots: &Vec<String>) -> (r: Result<
    Option<String>,
    RemoteCodexError,
>)
    ensures
        match existing {
            None => r matches Ok(o) && opt_string(o) == replacement(state_text(None, entries@, roots@), Seq::empty()),
            Some(t) => match json_parsed(t@) {
                None => r matches Err(RemoteCodexError::Json(_)),
                Some(tree) => r matches Ok(o) && opt_string(o) == replacement(
                    state_text(Some(tree), entries@, roots@),
                    t@,
                ),
            },
        },
{
    let state = match existing {
        Some(t) => match json_parse(t) {
            Ok(v) => Some(v),
            Err(e) => {
                return Err(RemoteCodexError::Json(e));
            },
        },
        None => None,
    };
    let value = synced_global_state(state, entries, roots);
    let mut content = match json_to_pretty(&value) {
        Ok(text) => text,
        Err(e) => {
            return Err(RemoteCodexError::Json(e));
        },
    };
    content.append("\n");
    let current = match existing {
        Some(t) => t,
        None => "",
    };
    proof {
        reveal_strlit("");
        assert(""@ =~= Seq::<char>::empty());
    }
    if same_text(content.as_str(), current) {
        Ok(None)
    } else {
        Ok(Some(content))
    }
}

} // verus!
