//! The `serde_json` value, as the library sees it.
//!
//! A value is modelled as a tree (see `tree`): the value itself stands at the
//! empty path, the member under key `k` of an object at `[Key(k)]`, the
//! element at position `i` of an array at `[Idx(i)]`, and so on down.
//! A number is represented by the digits `serde_json` writes for it.
use vstd::prelude::*;

use crate::tree::{graft, leaf, node_at, subtree};

verus! {

/// One step of a path into a JSON value.
pub enum JsonSeg {
    Key(Seq<char>),
    Idx(int),
}

/// What a JSON value is at one place.
pub enum JsonNode {
    Null,
    Bool(bool),
    /// A number, by the text `serde_json` writes for it.
    Num(Seq<char>),
    Str(Seq<char>),
    /// An array: its elements stand below it at `Idx` steps.
    Arr,
    /// An object: its members stand below it at `Key` steps.
    Obj,
}

pub type JsonTree = Map<Seq<JsonSeg>, JsonNode>;

#[verifier::external_type_specification]
#[verifier::external_body]
pub struct ExJsonValue(serde_json::Value);

#[verifier::external_type_specification]
#[verifier::external_body]
pub struct ExJsonError(serde_json::Error);

/// The tree of a value.
pub uninterp spec fn json_tree(v: serde_json::Value) -> JsonTree;

/// What `serde_json::from_str::<Value>` gives for `text`: the tree of the
/// value, or `None` where `text` is not one JSON value.
pub uninterp spec fn json_parsed(text: Seq<char>) -> Option<JsonTree>;

/// The text `serde_json::to_string` writes for a value with this tree
/// (objects are written in the order of their keys).
pub uninterp spec fn json_compact_text(t: JsonTree) -> Seq<char>;

/// The text `serde_json::to_string_pretty` writes for a value with this tree.
pub uninterp spec fn json_pretty_text(t: JsonTree) -> Seq<char>;

pub open spec fn key_path(k: Seq<char>) -> Seq<JsonSeg> {
    seq![JsonSeg::Key(k)]
}

/// The node at the top of a value.
pub open spec fn json_top(v: serde_json::Value) -> Option<JsonNode> {
    node_at(json_tree(v), Seq::empty())
}

/// The node at a path of a value.
pub open spec fn json_at(v: serde_json::Value, p: Seq<JsonSeg>) -> Option<JsonNode> {
    node_at(json_tree(v), p)
}

/// The member under `k`, for an object.
pub open spec fn member(t: JsonTree, k: Seq<char>) -> Option<JsonTree> {
    if t.dom().contains(Seq::empty()) && t[Seq::empty()] == JsonNode::Obj && t.dom().contains(
        key_path(k),
    ) {
        Some(subtree(t, key_path(k)))
    } else {
        None
    }
}

/// The text under `k`, for an object that holds a string there.
pub open spec fn member_str(t: JsonTree, k: Seq<char>) -> Option<Seq<char>> {
    match member(t, k) {
        Some(m) => match node_at(m, Seq::empty()) {
            Some(JsonNode::Str(s)) => Some(s),
            _ => None,
        },
        None => None,
    }
}

pub open spec fn str_value(s: Seq<char>) -> JsonTree {
    leaf(JsonNode::Str(s))
}

pub open spec fn null_value() -> JsonTree {
    leaf(JsonNode::Null)
}

pub open spec fn empty_object() -> JsonTree {
    leaf(JsonNode::Obj)
}

/// The tree of an array with these elements.
pub open spec fn array_tree(elems: Seq<JsonTree>) -> JsonTree {
    Map::new(
        |q: Seq<JsonSeg>|
            q.len() == 0 || (q[0] is Idx && 0 <= q[0]->Idx_0 < elems.len() && elems[q[0]->Idx_0].dom().contains(
                q.drop_first(),
            )),
        |q: Seq<JsonSeg>|
            if q.len() == 0 {
                JsonNode::Arr
            } else {
                elems[q[0]->Idx_0][q.drop_first()]
            },
    )
}

/// The tree of an array of strings.
pub open spec fn str_array(items: Seq<Seq<char>>) -> JsonTree {
    array_tree(items.map_values(|s: Seq<char>| str_value(s)))
}

/// There is an array or an object at `p` in `t`.
pub open spec fn container_at(t: JsonTree, p: Seq<JsonSeg>) -> bool {
    node_at(t, p) == Some(JsonNode::Arr) || node_at(t, p) == Some(JsonNode::Obj)
}

/// No array or object of `t` lies more than `d` steps down.
pub open spec fn nested_within(t: JsonTree, d: int) -> bool {
    forall|p: Seq<JsonSeg>| #[trigger] container_at(t, p) ==> p.len() <= d
}

/// No array or object of `t` lies more than 126 steps down: `serde_json`
/// refuses to read arrays and objects nested 128 deep.
pub open spec fn within_depth(t: JsonTree) -> bool {
    nested_within(t, 126)
}

/// Setting `s` at `p` nests nothing deeper than `d`, where `s` fits there.
pub proof fn lemma_graft_within(t: JsonTree, p: Seq<JsonSeg>, s: JsonTree, d: int)
    requires
        nested_within(t, d),
        nested_within(s, d - p.len()),
    ensures
        nested_within(graft(t, p, s), d),
{
    assert forall|q: Seq<JsonSeg>| #[trigger] container_at(graft(t, p, s), q) implies q.len() <= d by {
        crate::tree::lemma_graft_at(t, p, s, q);
        if p.is_prefix_of(q) {
            assert(container_at(s, q.skip(p.len() as int)));
        } else {
            assert(container_at(t, q));
        }
    }
}

/// What lies under `p` is nested `p.len()` less deep.
pub proof fn lemma_subtree_within(t: JsonTree, p: Seq<JsonSeg>, d: int)
    requires
        nested_within(t, d),
    ensures
        nested_within(subtree(t, p), d - p.len()),
{
    assert forall|q: Seq<JsonSeg>| #[trigger] container_at(subtree(t, p), q) implies q.len() <= d - p.len() by {
        assert(node_at(subtree(t, p), q) == node_at(t, p + q));
        assert(container_at(t, p + q));
    }
}

/// A string holds no array or object.
pub proof fn lemma_str_within(x: Seq<char>, d: int)
    requires
        d >= 0,
    ensures
        nested_within(str_value(x), d),
{
    assert forall|q: Seq<JsonSeg>| #[trigger] container_at(str_value(x), q) implies q.len() <= d by {
        if q.len() > 0 {
            assert(!str_value(x).dom().contains(q));
        }
    }
}

/// Trees alike up to the digits of numbers have alike members.
pub proof fn lemma_same_digits_member(u: JsonTree, t: JsonTree, k: Seq<char>)
    requires
        same_but_digits(u, t),
        member(t, k) is Some,
        node_at(member(t, k)->0, Seq::empty()) matches Some(n) && !(n is Num),
    ensures
        member(u, k) is Some,
        same_but_digits(member(u, k)->0, member(t, k)->0),
        node_at(member(u, k)->0, Seq::empty()) == node_at(member(t, k)->0, Seq::empty()),
        member_str(u, k) == member_str(t, k),
{
    let e = Seq::<JsonSeg>::empty();
    let kp = key_path(k);
    assert(t.dom().contains(e) && u.dom().contains(e));
    assert(u[e] == JsonNode::Obj);
    assert(t.dom().contains(kp) && u.dom().contains(kp));
    let mu = subtree(u, kp);
    let mt = subtree(t, kp);
    assert(kp + e =~= kp);
    assert(mu.dom() =~= mt.dom());
    assert forall|q: Seq<JsonSeg>| #[trigger] mu.dom().contains(q) implies (mu[q] == mt[q] || (mu[q] is Num
        && mt[q] is Num)) by {
        assert(u.dom().contains(kp + q));
    }
    assert(u[kp] == t[kp]);
}

/// A member set in an object is that member, and the other members stay.
pub proof fn lemma_member_of_graft(t: JsonTree, k: Seq<char>, s: JsonTree, k2: Seq<char>)
    requires
        node_at(t, Seq::empty()) == Some(JsonNode::Obj),
        s.dom().contains(Seq::empty()),
    ensures
        member(graft(t, key_path(k), s), k) == Some(s),
        k2 != k ==> member(graft(t, key_path(k), s), k2) == member(t, k2),
        k2 != k ==> member_str(graft(t, key_path(k), s), k2) == member_str(t, k2),
{
    let e = Seq::<JsonSeg>::empty();
    let kp = key_path(k);
    let kp2 = key_path(k2);
    let g = graft(t, kp, s);
    crate::tree::lemma_graft_at(t, kp, s, e);
    crate::tree::lemma_graft_at(t, kp, s, kp);
    assert(!kp.is_prefix_of(e));
    assert(kp.is_prefix_of(kp));
    assert(kp.skip(1) =~= e);
    assert forall|q: Seq<JsonSeg>| #[trigger] subtree(g, kp).dom().contains(q) == s.dom().contains(q) && (s.dom().contains(q)
        ==> subtree(g, kp)[q] == s[q]) by {
        crate::tree::lemma_graft_at(t, kp, s, kp + q);
        assert(kp.is_prefix_of(kp + q));
        assert((kp + q).skip(1) =~= q);
    }
    assert(subtree(g, kp) =~= s);
    if k2 != k {
        assert forall|q: Seq<JsonSeg>| #[trigger] subtree(g, kp2).dom().contains(q) == subtree(t, kp2).dom().contains(q)
            && (subtree(t, kp2).dom().contains(q) ==> subtree(g, kp2)[q] == subtree(t, kp2)[q]) by {
            crate::tree::lemma_graft_at(t, kp, s, kp2 + q);
            assert(!kp.is_prefix_of(kp2 + q)) by {
                if kp.is_prefix_of(kp2 + q) {
                    assert((kp2 + q).subrange(0, 1)[0] == (kp2 + q)[0]);
                    assert((kp2 + q)[0] == kp2[0]);
                    assert(kp[0] == JsonSeg::Key(k) && kp2[0] == JsonSeg::Key(k2));
                }
            }
        }
        assert(subtree(g, kp2) =~= subtree(t, kp2));
        crate::tree::lemma_graft_at(t, kp, s, kp2);
        assert(!kp.is_prefix_of(kp2)) by {
            if kp.is_prefix_of(kp2) {
                assert(kp2.subrange(0, 1)[0] == kp2[0]);
                assert(kp[0] == JsonSeg::Key(k) && kp2[0] == JsonSeg::Key(k2));
            }
        }
    }
}

/// `a` and `b` have the same shape and the same keys, strings, booleans and
/// nulls; a number may be written with other digits (a float read back by
/// `serde_json` may differ in its last place).
pub open spec fn same_but_digits(a: JsonTree, b: JsonTree) -> bool {
    &&& a.dom() == b.dom()
    &&& forall|p: Seq<JsonSeg>| #[trigger] a.dom().contains(p) ==> (a[p] == b[p] || (a[p] is Num && b[p] is Num))
}

/// `serde_json::from_str::<Value>`: parsing depends on the text alone, and
/// what it reads is nested less than 128 deep.
#[verifier::external_body]
pub(crate) fn json_parse(text: &str) -> (res: Result<serde_json::Value, serde_json::Error>)
    ensures
        match res {
            Ok(v) => json_parsed(text@) == Some(json_tree(v)) && within_depth(json_tree(v)),
            Err(_) => json_parsed(text@) is None,
        },
{
    serde_json::from_str::<serde_json::Value>(text)
}

/// `serde_json::to_string` of a value.  Writing a `Value` cannot fail: its
/// object keys are strings and the output goes to memory.  The compact
/// form holds no line break (line breaks inside strings are escaped), and
/// `from_str` reads it back as `json_to_pretty`'s text is read back.
#[verifier::external_body]
pub(crate) fn json_to_compact(v: &serde_json::Value) -> (res: Result<String, serde_json::Error>)
    ensures
        res is Ok,
        res matches Ok(s) ==> s@ == json_compact_text(json_tree(*v)),
        res matches Ok(s) ==> !s@.contains('\n') && !s@.contains('\r'),
        res matches Ok(s) ==> (within_depth(json_tree(*v)) ==> (json_parsed(s@) matches Some(u)
            && same_but_digits(u, json_tree(*v)))),
{
    serde_json::to_string(v)
}

/// `serde_json::to_string_pretty` of a value (two-space indent).  As with
/// `to_string`, writing a `Value` cannot fail.  The text is JSON that
/// `from_str` reads back (with or without a final line feed) as a value of
/// the same shape, keys, strings, booleans and nulls, provided the value is
/// not nested deeper than `from_str` reads; numbers are read back as
/// numbers, a float possibly with other last digits.
#[verifier::external_body]
pub(crate) fn json_to_pretty(v: &serde_json::Value) -> (res: Result<String, serde_json::Error>)
    ensures
        res is Ok,
        res matches Ok(s) ==> s@ == json_pretty_text(json_tree(*v)),
        res matches Ok(s) ==> (within_depth(json_tree(*v)) ==> (json_parsed(s@) matches Some(u)
            && same_but_digits(u, json_tree(*v)) && json_parsed(s@ + "\n"@) == json_parsed(s@))),
{
    serde_json::to_string_pretty(v)
}

/// `Value::get` with a key: the member of an object, `None` for any other
/// value or a missing key.
#[verifier::external_body]
pub(crate) fn json_get<'a>(v: &'a serde_json::Value, key: &str) -> (res: Option<&'a serde_json::Value>)
    ensures
        res is Some <==> member(json_tree(*v), key@) is Some,
        res matches Some(m) ==> Some(json_tree(*m)) == member(json_tree(*v), key@),
{
    v.get(key)
}

/// `Value::as_str`: the text of a string.
#[verifier::external_body]
pub(crate) fn json_as_str(v: &serde_json::Value) -> (res: Option<&str>)
    ensures
        res is Some <==> json_top(*v) matches Some(JsonNode::Str(_)),
        res matches Some(s) ==> json_top(*v) == Some(JsonNode::Str(s@)),
{
    v.as_str()
}

/// `Value::is_null`.
#[verifier::external_body]
pub(crate) fn json_is_null(v: &serde_json::Value) -> (res: bool)
    ensures
        res <==> json_top(*v) == Some(JsonNode::Null),
{
    v.is_null()
}

/// `Value::is_object`.
#[verifier::external_body]
pub(crate) fn json_is_object(v: &serde_json::Value) -> (res: bool)
    ensures
        res <==> json_top(*v) == Some(JsonNode::Obj),
{
    v.is_object()
}

/// `Map::insert` on an object: `val` takes the place of the member under
/// `key`.
#[verifier::external_body]
pub(crate) fn json_insert(v: &mut serde_json::Value, key: String, val: serde_json::Value)
    requires
        json_top(*old(v)) == Some(JsonNode::Obj),
    ensures
        json_tree(*final(v)) == graft(json_tree(*old(v)), key_path(key@), json_tree(val)),
{
    if let serde_json::Value::Object(m) = v {
        m.insert(key, val);
    }
}

/// `Map::keys` of an object: each key once.
#[verifier::external_body]
pub(crate) fn json_keys(v: &serde_json::Value) -> (res: Vec<String>)
    requires
        json_top(*v) == Some(JsonNode::Obj),
    ensures
        forall|i: int, j: int| 0 <= i < j < res@.len() ==> res@[i]@ != res@[j]@,
        forall|i: int| 0 <= i < res@.len() ==> json_tree(*v).dom().contains(#[trigger] key_path(res@[i]@)),
        forall|k: Seq<char>| json_tree(*v).dom().contains(#[trigger] key_path(k)) ==> exists|i: int| 0 <= i < res@.len() && res@[i]@ == k,
{
    match v {
        serde_json::Value::Object(m) => m.keys().cloned().collect(),
        _ => Vec::new(),
    }
}

/// `Value::String`.
#[verifier::external_body]
pub(crate) fn json_string(s: String) -> (res: serde_json::Value)
    ensures
        json_tree(res) == str_value(s@),
{
    serde_json::Value::String(s)
}

/// `Value::Null`.
#[verifier::external_body]
pub(crate) fn json_null() -> (res: serde_json::Value)
    ensures
        json_tree(res) == null_value(),
{
    serde_json::Value::Null
}

/// `Value::Object(Map::new())`.
#[verifier::external_body]
pub(crate) fn json_object() -> (res: serde_json::Value)
    ensures
        json_tree(res) == empty_object(),
{
    serde_json::Value::Object(serde_json::Map::new())
}

/// `Value::Array`.
#[verifier::external_body]
pub(crate) fn json_array(items: Vec<serde_json::Value>) -> (res: serde_json::Value)
    ensures
        json_tree(res) == array_tree(items@.map_values(|i: serde_json::Value| json_tree(i))),
{
    serde_json::Value::Array(items)
}

/// `Value::clone`.
#[verifier::external_body]
pub(crate) fn json_clone(v: &serde_json::Value) -> (res: serde_json::Value)
    ensures
        json_tree(res) == json_tree(*v),
{
    v.clone()
}

/// The text of the member under `key`, for an object that holds a string
/// there.
pub fn get_str(v: &serde_json::Value, key: &str) -> (res: Option<String>)
    ensures
        match member_str(json_tree(*v), key@) {
            Some(s) => res matches Some(r) && r@ == s,
            None => res is None,
        },
{
    match json_get(v, key) {
        Some(m) => {
            proof {
                assert(key_path(key@) + Seq::<JsonSeg>::empty() =~= key_path(key@));
            }
            match json_as_str(m) {
                Some(s) => Some(s.to_string()),
                None => None,
            }
        },
        None => None,
    }
}

} // verus!
