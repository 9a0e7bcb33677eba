//! The `toml_edit` document, as the library sees it.
//!
//! A document, a table or an item is modelled as a tree (see `tree`): every
//! item that can be reached from the root through `Item::Table` nodes stands
//! at the path of keys that leads to it, with the kind of node it is.  Items
//! that `toml_edit` treats as absent (`Item::None`) are not in the tree.
//! Everything that only affects layout (comments, whitespace, key order) is
//! outside the model and is kept by `toml_edit` itself.
use vstd::prelude::*;

use crate::tree::{graft, leaf, node_at, prune, subtree};

verus! {

/// What a TOML item is, as far as this library reads it.
pub enum TomlNode {
    /// A string value.
    Str(Seq<char>),
    /// A boolean value.
    Bool(bool),
    /// A standard table (`Item::Table`): its entries stand below it.
    Table,
    /// Anything else (numbers, dates, arrays, inline tables, arrays of tables).
    Other,
}

pub type TomlTree = Map<Seq<Seq<char>>, TomlNode>;

#[verifier::external_type_specification]
#[verifier::external_body]
pub struct ExDocumentMut(toml_edit::DocumentMut);

#[verifier::external_type_specification]
#[verifier::external_body]
pub struct ExTable(toml_edit::Table);

#[verifier::external_type_specification]
#[verifier::external_body]
pub struct ExItem(toml_edit::Item);

#[verifier::external_type_specification]
#[verifier::external_body]
pub struct ExTomlError(toml_edit::TomlError);

/// The entries of a document: the tree below its root table.
pub uninterp spec fn toml_tree(doc: toml_edit::DocumentMut) -> TomlTree;

/// The entries of a table: the tree below it.
pub uninterp spec fn toml_table_tree(t: toml_edit::Table) -> TomlTree;

/// An item: its own node at the empty path, and, for a table, its entries
/// below.
pub uninterp spec fn toml_item_tree(i: toml_edit::Item) -> TomlTree;

/// What parsing `text` as a TOML document gives: the tree of the document,
/// or `None` where `text` is not valid TOML.
pub uninterp spec fn toml_parsed(text: Seq<char>) -> Option<TomlTree>;

/// A string item.
pub open spec fn str_item(s: Seq<char>) -> TomlTree {
    leaf(TomlNode::Str(s))
}

/// The tree with no entries.
pub open spec fn empty_tree() -> TomlTree {
    Map::empty()
}

/// A boolean item.
pub open spec fn bool_item(b: bool) -> TomlTree {
    leaf(TomlNode::Bool(b))
}

/// A new, empty standard table.
pub open spec fn table_item() -> TomlTree {
    leaf(TomlNode::Table)
}

/// `DocumentMut::new`: a document with no entries.
#[verifier::external_body]
pub(crate) fn toml_new() -> (res: toml_edit::DocumentMut)
    ensures
        toml_tree(res) == empty_tree(),
{
    toml_edit::DocumentMut::new()
}

/// `str::parse::<DocumentMut>`: parsing depends on the text alone.
#[verifier::external_body]
pub(crate) fn toml_parse(text: &str) -> (res: Result<toml_edit::DocumentMut, toml_edit::TomlError>)
    ensures
        match res {
            Ok(d) => toml_parsed(text@) == Some(toml_tree(d)),
            Err(_) => toml_parsed(text@) is None,
        },
{
    text.parse::<toml_edit::DocumentMut>()
}

/// The text that `DocumentMut`'s `Display` writes for a document: its
/// entries with the layout (comments, spacing, order) the document holds.
pub uninterp spec fn toml_text(doc: toml_edit::DocumentMut) -> Seq<char>;

/// `DocumentMut`'s `Display`: the document as TOML text.  The text is a
/// function of the document alone, layout included; what it is beyond that
/// is left to `toml_edit`.  That the text reads back as the same tree is not
/// stated: a document holds whatever layout text was set on it (a decor's
/// prefix may be any text, `Decor::set_prefix`), and an implicit table with
/// no entries is not written at all (`Table::set_implicit`).
#[verifier::external_body]
pub(crate) fn toml_render(doc: &toml_edit::DocumentMut) -> (res: String)
    ensures
        res@ == toml_text(*doc),
{
    doc.to_string()
}

/// `DocumentMut::as_table`: the root table, whose entries are those of the
/// document.
#[verifier::external_body]
pub(crate) fn doc_root(doc: &toml_edit::DocumentMut) -> (res: &toml_edit::Table)
    ensures
        toml_table_tree(*res) == toml_tree(*doc),
{
    doc.as_table()
}

/// `Table::get`: the item under `key`, when it is present and not
/// `Item::None`.
#[verifier::external_body]
pub(crate) fn table_get<'a>(t: &'a toml_edit::Table, key: &str) -> (res: Option<&'a toml_edit::Item>)
    ensures
        res is Some <==> toml_table_tree(*t).dom().contains(seq![key@]),
        res matches Some(i) ==> toml_item_tree(*i) == subtree(toml_table_tree(*t), seq![key@]),
{
    t.get(key)
}

/// `Item::as_table`: the table, when the item is an `Item::Table`.
#[verifier::external_body]
pub(crate) fn item_as_table(i: &toml_edit::Item) -> (res: Option<&toml_edit::Table>)
    ensures
        res is Some <==> node_at(toml_item_tree(*i), Seq::empty()) == Some(TomlNode::Table),
        res matches Some(t) ==> toml_table_tree(*t) == toml_item_tree(*i).remove(Seq::empty()),
{
    i.as_table()
}

/// `Item::as_str`: the text, when the item is a string value.
#[verifier::external_body]
pub(crate) fn item_as_str(i: &toml_edit::Item) -> (res: Option<&str>)
    ensures
        res is Some <==> node_at(toml_item_tree(*i), Seq::empty()) matches Some(TomlNode::Str(_)),
        res matches Some(s) ==> node_at(toml_item_tree(*i), Seq::empty()) == Some(TomlNode::Str(s@)),
{
    i.as_str()
}

/// `Item::as_bool`: the value, when the item is a boolean value.
#[verifier::external_body]
pub(crate) fn item_as_bool(i: &toml_edit::Item) -> (res: Option<bool>)
    ensures
        res is Some <==> node_at(toml_item_tree(*i), Seq::empty()) matches Some(TomlNode::Bool(_)),
        res matches Some(b) ==> node_at(toml_item_tree(*i), Seq::empty()) == Some(TomlNode::Bool(b)),
{
    i.as_bool()
}

/// `Table::is_empty`: true when the table has no entry (entries set to
/// `Item::None` do not count).
#[verifier::external_body]
pub(crate) fn table_is_empty(t: &toml_edit::Table) -> (res: bool)
    ensures
        res <==> toml_table_tree(*t) == empty_tree(),
{
    t.is_empty()
}

/// `toml_edit::value` of a `&str`: a string item.
#[verifier::external_body]
pub(crate) fn item_str(s: &str) -> (res: toml_edit::Item)
    ensures
        toml_item_tree(res) == str_item(s@),
{
    toml_edit::value(s)
}

/// `toml_edit::value` of a `bool`: a boolean item.
#[verifier::external_body]
pub(crate) fn item_bool(b: bool) -> (res: toml_edit::Item)
    ensures
        toml_item_tree(res) == bool_item(b),
{
    toml_edit::value(b)
}

/// `Item::Table(Table::new())`: a new, empty standard table.
#[verifier::external_body]
pub(crate) fn item_table() -> (res: toml_edit::Item)
    ensures
        toml_item_tree(res) == table_item(),
{
    toml_edit::Item::Table(toml_edit::Table::new())
}

/// `doc[key] = item` (`IndexMut` of `DocumentMut`): the item takes the place
/// of whatever stood under `key` in the root table.
#[verifier::external_body]
pub(crate) fn doc_set(doc: &mut toml_edit::DocumentMut, key: &str, item: toml_edit::Item)
    ensures
        toml_tree(*final(doc)) == graft(toml_tree(*old(doc)), seq![key@], toml_item_tree(item)),
{
    doc[key] = item;
}

/// `doc[table][sub][key] = item` (`IndexMut` of `DocumentMut` and `Item`),
/// where `table` and `table.sub` are standard tables, so that no index
/// panics.
#[verifier::external_body]
pub(crate) fn doc_set_in(
    doc: &mut toml_edit::DocumentMut,
    table: &str,
    sub: &str,
    key: &str,
    item: toml_edit::Item,
)
    requires
        node_at(toml_tree(*old(doc)), seq![table@]) == Some(TomlNode::Table),
        node_at(toml_tree(*old(doc)), seq![table@, sub@]) == Some(TomlNode::Table),
    ensures
        toml_tree(*final(doc)) == graft(
            toml_tree(*old(doc)),
            seq![table@, sub@, key@],
            toml_item_tree(item),
        ),
{
    doc[table][sub][key] = item;
}

/// `Table::insert` on the standard table `table` of the root: the item takes
/// the place of whatever stood under `key` in it.
#[verifier::external_body]
pub(crate) fn doc_insert_in(doc: &mut toml_edit::DocumentMut, table: &str, key: &str, item: toml_edit::Item)
    requires
        node_at(toml_tree(*old(doc)), seq![table@]) == Some(TomlNode::Table),
    ensures
        toml_tree(*final(doc)) == graft(
            toml_tree(*old(doc)),
            seq![table@, key@],
            toml_item_tree(item),
        ),
{
    if let Some(t) = doc.get_mut(table).and_then(toml_edit::Item::as_table_mut) {
        t.insert(key, item);
    }
}

/// `Table::remove` on the root: `key` and all below it go.
#[verifier::external_body]
pub(crate) fn doc_remove(doc: &mut toml_edit::DocumentMut, key: &str)
    ensures
        toml_tree(*final(doc)) == prune(toml_tree(*old(doc)), seq![key@]),
{
    doc.remove(key);
}

/// `Table::remove` on the standard table `table` of the root.
#[verifier::external_body]
pub(crate) fn doc_remove_in(doc: &mut toml_edit::DocumentMut, table: &str, key: &str)
    requires
        node_at(toml_tree(*old(doc)), seq![table@]) == Some(TomlNode::Table),
    ensures
        toml_tree(*final(doc)) == prune(toml_tree(*old(doc)), seq![table@, key@]),
{
    if let Some(t) = doc.get_mut(table).and_then(toml_edit::Item::as_table_mut) {
        t.remove(key);
    }
}

// ---------------------------------------------------------------------------
// Reading through the root
// ---------------------------------------------------------------------------

/// The node at a path of the document.
pub open spec fn toml_at(doc: toml_edit::DocumentMut, p: Seq<Seq<char>>) -> Option<TomlNode> {
    node_at(toml_tree(doc), p)
}

/// The item at `[a]`.
pub fn get1<'a>(doc: &'a toml_edit::DocumentMut, a: &str) -> (res: Option<&'a toml_edit::Item>)
    ensures
        res is Some <==> toml_tree(*doc).dom().contains(seq![a@]),
        res matches Some(i) ==> toml_item_tree(*i) == subtree(toml_tree(*doc), seq![a@]),
{
    table_get(doc_root(doc), a)
}

/// The item at `[a, b]`, reached through the standard table `[a]`.
pub fn get2<'a>(doc: &'a toml_edit::DocumentMut, a: &str, b: &str) -> (res: Option<&'a toml_edit::Item>)
    ensures
        res is Some <==> (toml_at(*doc, seq![a@]) == Some(TomlNode::Table) && toml_tree(*doc).dom().contains(seq![a@, b@])),
        res matches Some(i) ==> toml_item_tree(*i) == subtree(toml_tree(*doc), seq![a@, b@]),
{
    let ghost t = toml_tree(*doc);
    match get1(doc, a) {
        Some(ia) => {
            proof {
                assert(seq![a@] + Seq::<Seq<char>>::empty() =~= seq![a@]);
            }
            match item_as_table(ia) {
                Some(ta) => {
                    proof {
                        assert(seq![a@] + seq![b@] =~= seq![a@, b@]);
                        assert forall|q: Seq<Seq<char>>| true implies seq![b@] + q != Seq::<Seq<char>>::empty() by {
                            assert((seq![b@] + q).len() >= 1);
                        }
                        assert forall|q: Seq<Seq<char>>| #![auto] seq![a@] + (seq![b@] + q) == seq![a@, b@] + q by {
                            assert(seq![a@] + (seq![b@] + q) =~= seq![a@, b@] + q);
                        }
                    }
                    let r = table_get(ta, b);
                    proof {
                        if let Some(i) = r {
                            assert(toml_item_tree(*i) =~= subtree(t, seq![a@, b@]));
                        }
                    }
                    r
                },
                None => {
                    None
                },
            }
        },
        None => None,
    }
}

/// The item at `[a, b, c]`, reached through the standard tables `[a]` and
/// `[a, b]`.
pub fn get3<'a>(doc: &'a toml_edit::DocumentMut, a: &str, b: &str, c: &str) -> (res: Option<&'a toml_edit::Item>)
    ensures
        res is Some <==> (toml_at(*doc, seq![a@]) == Some(TomlNode::Table) && toml_at(*doc, seq![a@, b@]) == Some(TomlNode::Table)
            && toml_tree(*doc).dom().contains(seq![a@, b@, c@])),
        res matches Some(i) ==> toml_item_tree(*i) == subtree(toml_tree(*doc), seq![a@, b@, c@]),
{
    let ghost t = toml_tree(*doc);
    match get2(doc, a, b) {
        Some(ib) => {
            proof {
                assert(seq![a@, b@] + Seq::<Seq<char>>::empty() =~= seq![a@, b@]);
            }
            match item_as_table(ib) {
                Some(tb) => {
                    proof {
                        assert(seq![a@, b@] + seq![c@] =~= seq![a@, b@, c@]);
                        assert forall|q: Seq<Seq<char>>| true implies seq![c@] + q != Seq::<Seq<char>>::empty() by {
                            assert((seq![c@] + q).len() >= 1);
                        }
                        assert forall|q: Seq<Seq<char>>| #![auto] seq![a@, b@] + (seq![c@] + q) == seq![a@, b@, c@] + q by {
                            assert(seq![a@, b@] + (seq![c@] + q) =~= seq![a@, b@, c@] + q);
                        }
                    }
                    let r = table_get(tb, c);
                    proof {
                        if let Some(i) = r {
                            assert(toml_item_tree(*i) =~= subtree(t, seq![a@, b@, c@]));
                        }
                    }
                    r
                },
                None => None,
            }
        },
        None => None,
    }
}

/// The text of a string item.
pub fn item_text(i: Option<&toml_edit::Item>) -> (res: Option<String>)
    ensures
        match i {
            Some(it) => match node_at(toml_item_tree(*it), Seq::empty()) {
                Some(TomlNode::Str(s)) => res matches Some(r) && r@ == s,
                _ => res is None,
            },
            None => res is None,
        },
{
    match i {
        Some(it) => match item_as_str(it) {
            Some(s) => Some(s.to_string()),
            None => None,
        },
        None => None,
    }
}

/// The node at the empty path of an item's tree is the node the path of the
/// item leads to.
pub proof fn lemma_item_node(doc: toml_edit::DocumentMut, p: Seq<Seq<char>>, i: toml_edit::Item)
    requires
        toml_tree(doc).dom().contains(p),
        toml_item_tree(i) == subtree(toml_tree(doc), p),
    ensures
        node_at(toml_item_tree(i), Seq::empty()) == toml_at(doc, p),
{
    assert(p + Seq::<Seq<char>>::empty() =~= p);
}

} // verus!
