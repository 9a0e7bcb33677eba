//! Workspace roots the user adds by hand, so that Codex lists their
//! projects.  A root is known by its path, compared without regard to case,
//! to trailing separators and to the kind of slash.
use vstd::prelude::*;

use crate::order::{keys_lt, sort_stable, sorted_stable, SortKey};
use crate::codex_paths::{home_dir, path_join, placed};
use crate::profile::{config_dir, is_message};
use crate::text::{
    ascii_lower, blank, chars_of, char_to_ascii_lowercase, contains_char, decimal, is_ascii_alnum, is_blank,
    is_sep, join, join_chars, lemma_decimal_injective, lemma_decimal_len, lowercase, split, split_chars,
    str_to_lowercase, str_trim, str_trim_end_seps, string_of, trim, trim_end_seps, usize_to_decimal,
};
use crate::RemoteCodexError;

verus! {

/// A workspace root the user added.
#[derive(Clone, Debug, PartialEq, Eq)]
pub struct CustomHistoryRoot {
    pub id: String,
    pub label: String,
    pub path: String,
    pub created_at: String,
    pub updated_at: String,
}

impl CustomHistoryRoot {
    /// A root not saved yet: no id and no timestamps.
    pub fn draft(label: &str, path: &str) -> (r: Self)
        ensures
            r.id@ == Seq::<char>::empty(),
            r.label@ == label@,
            r.path@ == path@,
            r.created_at@ == Seq::<char>::empty(),
            r.updated_at@ == Seq::<char>::empty(),
    {
        CustomHistoryRoot {
            id: String::new(),
            label: label.to_string(),
            path: path.to_string(),
            created_at: String::new(),
            updated_at: String::new(),
        }
    }

    /// A copy of the root.
    pub fn duplicate(&self) -> (r: Self)
        ensures
            r == *self,
    {
        CustomHistoryRoot {
            id: self.id.clone(),
            label: self.label.clone(),
            path: self.path.clone(),
            created_at: self.created_at.clone(),
            updated_at: self.updated_at.clone(),
        }
    }
}

/// Roots are listed by label, then by path, without regard to case.
impl SortKey for CustomHistoryRoot {
    open spec fn key_view(&self) -> Seq<Seq<char>> {
        seq![lowercase(self.label@), lowercase(self.path@)]
    }

    fn sort_key(&self) -> (r: Vec<Vec<char>>)
        ensures
            r.deep_view() == self.key_view(),
    {
        let label = str_to_lowercase(self.label.as_str());
        let path = str_to_lowercase(self.path.as_str());
        let mut r: Vec<Vec<char>> = Vec::new();
        r.push(chars_of(label.as_str()));
        r.push(chars_of(path.as_str()));
        assert(r.deep_view()[0] =~= r@[0]@);
        assert(r.deep_view()[1] =~= r@[1]@);
        assert(r.deep_view() =~= self.key_view());
        r
    }
}

// ---------------------------------------------------------------------------
// Slugs
// ---------------------------------------------------------------------------

/// ASCII letters and digits in lower case; every other character a hyphen.
pub open spec fn slug_char(c: char) -> char {
    if is_ascii_alnum(c) {
        ascii_lower(c)
    } else {
        '-'
    }
}

/// The pieces of `parts` that are not empty.
pub open spec fn nonempty_parts(parts: Seq<Seq<char>>) -> Seq<Seq<char>>
    decreases parts.len(),
{
    if parts.len() == 0 {
        parts
    } else if parts.last().len() == 0 {
        nonempty_parts(parts.drop_last())
    } else {
        nonempty_parts(parts.drop_last()).push(parts.last())
    }
}

/// The slug of `s`: its letters and digits in lower case, each run of other
/// characters made one hyphen, no hyphen at either end, at most 48
/// characters.
pub open spec fn slug(s: Seq<char>) -> Seq<char> {
    let full = join(nonempty_parts(split(s.map_values(|c: char| slug_char(c)), '-')), seq!['-']);
    if full.len() > 48 {
        full.take(48)
    } else {
        full
    }
}

pub fn slugify(value: &str) -> (r: String)
    ensures
        r@ == slug(value@),
{
    let v = chars_of(value);
    let mut mapped: Vec<char> = Vec::new();
    let mut i: usize = 0;
    while i < v.len()
        invariant
            v@ == value@,
            i <= v.len(),
            mapped@ == v@.take(i as int).map_values(|c: char| slug_char(c)),
        decreases v.len() - i,
    {
        let c = v[i];
        let m = if crate::text::ascii_alnum(c) {
            char_to_ascii_lowercase(c)
        } else {
            '-'
        };
        mapped.push(m);
        i = i + 1;
        assert(mapped@ =~= v@.take(i as int).map_values(|c: char| slug_char(c)));
    }
    assert(v@.take(v@.len() as int) =~= v@);
    let parts = split_chars(&mapped, '-');
    let ghost pv = split(mapped@, '-');
    let mut kept: Vec<Vec<char>> = Vec::new();
    let mut k: usize = 0;
    while k < parts.len()
        invariant
            k <= parts.len(),
            parts@.len() == pv.len(),
            forall|j: int| 0 <= j < parts@.len() ==> #[trigger] parts@[j]@ == pv[j],
            kept@.map_values(|p: Vec<char>| p@) == nonempty_parts(pv.take(k as int)),
        decreases parts.len() - k,
    {
        assert(pv.take(k + 1).drop_last() =~= pv.take(k as int));
        assert(pv.take(k + 1).last() == pv[k as int]);
        if parts[k].len() > 0 {
            kept.push(parts[k].clone());
        }
        k = k + 1;
        assert(kept@.map_values(|p: Vec<char>| p@) =~= nonempty_parts(pv.take(k as int)));
    }
    assert(pv.take(pv.len() as int) =~= pv);
    let mut dash: Vec<char> = Vec::new();
    dash.push('-');
    let joined_chars = join_chars(&kept, &dash);
    assert(dash@ =~= seq!['-']);
    if joined_chars.len() > 48 {
        let mut short: Vec<char> = Vec::new();
        let mut j: usize = 0;
        while j < 48
            invariant
                j <= 48,
                joined_chars@.len() > 48,
                short@ == joined_chars@.take(j as int),
            decreases 48 - j,
        {
            short.push(joined_chars[j]);
            j = j + 1;
            assert(short@ =~= joined_chars@.take(j as int));
        }
        string_of(short.as_slice())
    } else {
        string_of(joined_chars.as_slice())
    }
}

// ---------------------------------------------------------------------------
// Paths
// ---------------------------------------------------------------------------

/// The part of `s` after its last separator (all of `s` where it has none).
pub open spec fn last_segment(s: Seq<char>) -> Seq<char>
    decreases s.len(),
{
    if s.len() == 0 {
        s
    } else if is_sep(s.last()) {
        Seq::empty()
    } else {
        last_segment(s.drop_last()).push(s.last())
    }
}

/// The label a root gets from its path: its last part, or `Workspace` where
/// that is blank.
pub open spec fn label_of_path(path: Seq<char>) -> Seq<char> {
    let seg = last_segment(trim_end_seps(path));
    if is_blank(seg) {
        "Workspace"@
    } else {
        seg
    }
}

pub fn label_from_path(path: &str) -> (r: String)
    ensures
        r@ == label_of_path(path@),
{
    let t = chars_of(str_trim_end_seps(path));
    let mut start = t.len();
    assert(t@.take(t@.len() as int) =~= t@);
    assert(t@.skip(t@.len() as int) =~= Seq::<char>::empty());
    while start > 0 && !(t[start - 1] == '/' || t[start - 1] == '\\')
        invariant
            start <= t.len(),
            last_segment(t@) == last_segment(t@.take(start as int)) + t@.skip(start as int),
        decreases start,
    {
        let ghost s = t@.take(start as int);
        assert(s.drop_last() =~= t@.take(start - 1));
        assert(s.last() == t@[start - 1]);
        assert(t@.skip(start - 1) =~= seq![t@[start - 1]] + t@.skip(start as int));
        start = start - 1;
        assert(last_segment(t@.take(start as int)) + t@.skip(start as int) =~= last_segment(s) + t@.skip(start as int + 1)) by {
            assert(last_segment(s) =~= last_segment(t@.take(start as int)).push(t@[start as int]));
        }
    }
    proof {
        assert(t@.take(t@.len() as int) =~= t@);
        assert(t@.skip(t@.len() as int) =~= Seq::<char>::empty());
        if start > 0 {
            let s = t@.take(start as int);
            assert(is_sep(s.last()));
            assert(last_segment(s) == Seq::<char>::empty());
        } else {
            assert(t@.take(0) =~= Seq::<char>::empty());
        }
        assert(last_segment(t@) =~= t@.skip(start as int));
    }
    let mut seg: Vec<char> = Vec::new();
    let mut i = start;
    while i < t.len()
        invariant
            start <= i <= t.len(),
            seg@ == t@.subrange(start as int, i as int),
        decreases t.len() - i,
    {
        seg.push(t[i]);
        i = i + 1;
        assert(seg@ =~= t@.subrange(start as int, i as int));
    }
    assert(seg@ =~= t@.skip(start as int));
    let seg_text = string_of(seg.as_slice());
    if blank(seg_text.as_str()) {
        "Workspace".to_string()
    } else {
        seg_text
    }
}

/// `s` with every backslash made a slash.
pub open spec fn forward_slashes(s: Seq<char>) -> Seq<char> {
    s.map_values(|c: char| if c == '\\' { '/' } else { c })
}

/// The key by which roots are told apart: the path trimmed, without
/// trailing separators, with slashes only, in lower case.
pub open spec fn root_key(path: Seq<char>) -> Seq<char> {
    lowercase(forward_slashes(trim_end_seps(trim(path))))
}

pub fn root_path_key(path: &str) -> (r: String)
    ensures
        r@ == root_key(path@),
{
    let t = chars_of(str_trim_end_seps(str_trim(path)));
    let mut out: Vec<char> = Vec::new();
    let mut i: usize = 0;
    while i < t.len()
        invariant
            i <= t.len(),
            out@ == t@.take(i as int).map_values(|c: char| if c == '\\' { '/' } else { c }),
        decreases t.len() - i,
    {
        let c = t[i];
        out.push(if c == '\\' { '/' } else { c });
        i = i + 1;
        assert(out@ =~= t@.take(i as int).map_values(|c: char| if c == '\\' { '/' } else { c }));
    }
    assert(t@.take(t@.len() as int) =~= t@);
    let s = string_of(out.as_slice());
    str_to_lowercase(s.as_str())
}

// ---------------------------------------------------------------------------
// Normalising a root
// ---------------------------------------------------------------------------

/// The first rule a root breaks, by its message, once its path is trimmed.
pub open spec fn root_problem(root: CustomHistoryRoot) -> Option<Seq<char>> {
    let path = trim_end_seps(trim(root.path@));
    if path.len() == 0 {
        Some("history root path is required"@)
    } else if path.contains('\n') || path.contains('\r') {
        Some("history root path cannot contain newlines"@)
    } else {
        None
    }
}

/// `n` is `root` normalised: the id made a slug, the label trimmed, the path
/// trimmed and without trailing separators, and a blank label taken from the
/// path.
pub open spec fn normalized(n: CustomHistoryRoot, root: CustomHistoryRoot) -> bool {
    let path = trim_end_seps(trim(root.path@));
    &&& n.id@ == slug(root.id@)
    &&& n.path@ == path
    &&& n.label@ == (if trim(root.label@).len() == 0 {
        label_of_path(path)
    } else {
        trim(root.label@)
    })
    &&& n.created_at == root.created_at
    &&& n.updated_at == root.updated_at
}

pub fn normalize_root(root: CustomHistoryRoot) -> (r: Result<CustomHistoryRoot, RemoteCodexError>)
    ensures
        match root_problem(root) {
            Some(m) => r matches Err(e) && is_message(e, m),
            None => r matches Ok(n) && normalized(n, root),
        },
{
    let mut root = root;
    let ghost original = root;
    root.id = slugify(root.id.as_str());
    root.label = str_trim(root.label.as_str()).to_string();
    root.path = str_trim_end_seps(str_trim(root.path.as_str())).to_string();
    if root.path.unicode_len() == 0 {
        return Err(RemoteCodexError::Message("history root path is required".to_string()));
    }
    if contains_char(root.path.as_str(), '\n') || contains_char(root.path.as_str(), '\r') {
        return Err(RemoteCodexError::Message("history root path cannot contain newlines".to_string()));
    }
    if root.label.unicode_len() == 0 {
        root.label = label_from_path(root.path.as_str());
    }
    Ok(root)
}

// ---------------------------------------------------------------------------
// Ids
// ---------------------------------------------------------------------------

/// `id` is the id of one of `roots`.
pub open spec fn id_taken(roots: Seq<CustomHistoryRoot>, id: Seq<char>) -> bool {
    exists|i: int| 0 <= i < roots.len() && #[trigger] roots[i].id@ == id
}

/// The id a new root of path `path` is given first: the slug of the path,
/// or `workspace-root`.
pub open spec fn base_id(path: Seq<char>) -> Seq<char> {
    if slug(path).len() == 0 {
        "workspace-root"@
    } else {
        slug(path)
    }
}

/// The `k`-th candidate after the base id: `<base>-<k>`.
pub open spec fn numbered(base: Seq<char>, k: nat) -> Seq<char> {
    base + seq!['-'] + decimal(k)
}

/// The id a new root of path `path` gets among `roots`: the base id where it
/// is free, else the first free `<base>-<k>` for `k` from 2 up.
pub open spec fn fresh_id(roots: Seq<CustomHistoryRoot>, path: Seq<char>) -> Seq<char> {
    let base = base_id(path);
    if !id_taken(roots, base) {
        base
    } else {
        numbered(
            base,
            choose|k: nat| k >= 2 && !id_taken(roots, numbered(base, k)) && forall|j: nat|
                2 <= j < k ==> id_taken(roots, #[trigger] numbered(base, j)),
        )
    }
}

proof fn lemma_numbered_injective(base: Seq<char>, a: nat, b: nat)
    requires
        numbered(base, a) == numbered(base, b),
    ensures
        a == b,
{
    let pa = base + seq!['-'];
    assert(numbered(base, a).skip(pa.len() as int) =~= decimal(a));
    assert(numbered(base, b).skip(pa.len() as int) =~= decimal(b));
    lemma_decimal_injective(a, b);
}

fn id_in(roots: &Vec<CustomHistoryRoot>, id: &str) -> (r: bool)
    ensures
        r == id_taken(roots@, id@),
{
    let mut i: usize = 0;
    while i < roots.len()
        invariant
            i <= roots.len(),
            forall|j: int| 0 <= j < i ==> roots@[j].id@ != id@,
        decreases roots.len() - i,
    {
        if crate::text::same_text(roots[i].id.as_str(), id) {
            assert(roots@[i as int].id@ == id@);
            return true;
        }
        i = i + 1;
    }
    false
}

/// The ids of `roots` as a set.
pub open spec fn id_set(roots: Seq<CustomHistoryRoot>) -> Set<Seq<char>> {
    Set::new(|id: Seq<char>| id_taken(roots, id))
}

proof fn lemma_id_set_finite(roots: Seq<CustomHistoryRoot>)
    ensures
        id_set(roots).finite(),
        id_set(roots).len() <= roots.len(),
    decreases roots.len(),
{
    if roots.len() == 0 {
        assert(id_set(roots) =~= Set::<Seq<char>>::empty());
    } else {
        let d = roots.drop_last();
        lemma_id_set_finite(d);
        assert(id_set(roots) =~= id_set(d).insert(roots.last().id@)) by {
            assert forall|id: Seq<char>| id_set(roots).contains(id) implies id_set(d).insert(roots.last().id@).contains(id) by {
                let i = choose|i: int| 0 <= i < roots.len() && #[trigger] roots[i].id@ == id;
                if i < d.len() {
                    assert(d[i] == roots[i]);
                }
            }
            assert forall|id: Seq<char>| id_set(d).insert(roots.last().id@).contains(id) implies id_set(roots).contains(id) by {
                if id_set(d).contains(id) {
                    let i = choose|i: int| 0 <= i < d.len() && #[trigger] d[i].id@ == id;
                    assert(roots[i] == d[i]);
                } else {
                    assert(roots[roots.len() - 1].id@ == id);
                }
            }
        }
    }
}

/// The id a new root of path `path` gets among `roots`.
pub fn unique_root_id(roots: &Vec<CustomHistoryRoot>, path: &str) -> (r: String)
    requires
        roots@.len() + 2 <= usize::MAX,
    ensures
        r@ == fresh_id(roots@, path@),
        !id_taken(roots@, r@),
{
    let s = slugify(path);
    let base = if s.unicode_len() == 0 {
        "workspace-root".to_string()
    } else {
        s
    };
    if !id_in(roots, base.as_str()) {
        return base;
    }
    let ghost b = base@;
    let ghost taken = id_set(roots@);
    proof {
        lemma_id_set_finite(roots@);
    }
    let mut index: usize = 2;
    let ghost mut seen: Set<Seq<char>> = Set::empty();
    loop
        invariant
            b == base@,
            b == base_id(path@),
            id_taken(roots@, b),
            2 <= index,
            index <= roots@.len() + 2,
            roots@.len() + 2 <= usize::MAX,
            taken == id_set(roots@),
            taken.finite(),
            taken.len() <= roots@.len(),
            seen.finite(),
            seen.len() == index - 2,
            seen.subset_of(taken),
            forall|j: nat| 2 <= j < index ==> id_taken(roots@, #[trigger] numbered(b, j)),
            forall|x: Seq<char>| seen.contains(x) ==> exists|j: nat| 2 <= j < index && x == #[trigger] numbered(b, j),
        decreases roots@.len() + 2 - index,
    {
        let digits = usize_to_decimal(index);
        let mut candidate = base.clone();
        candidate.append("-");
        candidate.append(digits.as_str());
        proof {
            reveal_strlit("-");
            assert(candidate@ =~= numbered(b, index as nat));
        }
        if !id_in(roots, candidate.as_str()) {
            proof {
                let k = index as nat;
                let w = choose|k: nat| k >= 2 && !id_taken(roots@, numbered(b, k)) && forall|j: nat|
                    2 <= j < k ==> id_taken(roots@, #[trigger] numbered(b, j));
                assert(w == k) by {
                    if w < k {
                        assert(id_taken(roots@, numbered(b, w)));
                    } else if w > k {
                        assert(id_taken(roots@, numbered(b, k)));
                    }
                }
            }
            return candidate;
        }
        proof {
            let x = numbered(b, index as nat);
            assert(!seen.contains(x)) by {
                if seen.contains(x) {
                    let j = choose|j: nat| 2 <= j < index && x == #[trigger] numbered(b, j);
                    lemma_numbered_injective(b, j, index as nat);
                }
            }
            assert(taken.contains(x));
            seen = seen.insert(x);
            vstd::set_lib::lemma_len_subset(seen, taken);
        }
        index = index + 1;
    }
}

// ---------------------------------------------------------------------------
// Saving and deleting
// ---------------------------------------------------------------------------

/// The first root in `roots` with id `id` or with path key `key`.
pub open spec fn first_match(roots: Seq<CustomHistoryRoot>, id: Seq<char>, key: Seq<char>) -> Option<int> {
    if exists|i: int| 0 <= i < roots.len() && #[trigger] matches_root(roots[i], id, key) {
        Some(
            choose|i: int|
                0 <= i < roots.len() && #[trigger] matches_root(roots[i], id, key) && forall|j: int|
                    0 <= j < i ==> !matches_root(roots[j], id, key),
        )
    } else {
        None
    }
}

pub open spec fn matches_root(item: CustomHistoryRoot, id: Seq<char>, key: Seq<char>) -> bool {
    item.id@ == id || root_key(item.path@) == key
}

/// `q` is the normalised root `n` as saved among `roots` at the time `now`:
/// it takes the place of the first root with its id or path, keeping that
/// root's id and creation time where it brings none, or it is added with a
/// fresh id; it is marked updated at `now`.
pub open spec fn saved_as(q: CustomHistoryRoot, n: CustomHistoryRoot, roots: Seq<CustomHistoryRoot>, now: Seq<char>) -> bool {
    &&& q.label == n.label
    &&& q.path == n.path
    &&& q.updated_at@ == now
    &&& match first_match(roots, n.id@, root_key(n.path@)) {
        Some(i) => {
            &&& q.id@ == (if n.id@.len() == 0 {
                roots[i].id@
            } else {
                n.id@
            })
            &&& q.created_at@ == (if is_blank(n.created_at@) {
                roots[i].created_at@
            } else {
                n.created_at@
            })
        },
        None => {
            &&& q.id@ == (if n.id@.len() == 0 {
                fresh_id(roots, n.path@)
            } else {
                n.id@
            })
            &&& q.created_at@ == (if is_blank(n.created_at@) {
                now
            } else {
                n.created_at@
            })
        },
    }
}

/// The list of roots after `q` is saved: in place of the first match, or
/// added at the end.
pub open spec fn with_root(roots: Seq<CustomHistoryRoot>, n: CustomHistoryRoot, q: CustomHistoryRoot) -> Seq<CustomHistoryRoot> {
    match first_match(roots, n.id@, root_key(n.path@)) {
        Some(i) => roots.update(i, q),
        None => roots.push(q),
    }
}

fn find_match(roots: &Vec<CustomHistoryRoot>, id: &str, key: &str) -> (r: Option<usize>)
    ensures
        r matches Some(i) ==> first_match(roots@, id@, key@) == Some(i as int) && i < roots@.len(),
        r is None ==> first_match(roots@, id@, key@) is None,
{
    let mut i: usize = 0;
    while i < roots.len()
        invariant
            i <= roots.len(),
            forall|j: int| 0 <= j < i ==> !matches_root(roots@[j], id@, key@),
        decreases roots.len() - i,
    {
        let k = root_path_key(roots[i].path.as_str());
        if crate::text::same_text(roots[i].id.as_str(), id) || crate::text::same_text(k.as_str(), key) {
            assert(matches_root(roots@[i as int], id@, key@));
            let ghost w = choose|w: int|
                0 <= w < roots@.len() && #[trigger] matches_root(roots@[w], id@, key@) && forall|j: int|
                    0 <= j < w ==> !matches_root(roots@[j], id@, key@);
            assert(w == i) by {
                if w < i {
                } else if w > i {
                }
            }
            return Some(i);
        }
        i = i + 1;
    }
    None
}

/// Saves `root` into `roots` at the time `now`.  Gives the list, sorted by
/// label and path without regard to case, and the root as saved.
pub fn save_root_at(roots: Vec<CustomHistoryRoot>, root: CustomHistoryRoot, now: &str) -> (r: Result<
    (Vec<CustomHistoryRoot>, CustomHistoryRoot),
    RemoteCodexError,
>)
    requires
        roots@.len() + 2 <= usize::MAX,
    ensures
        match root_problem(root) {
            Some(m) => r matches Err(e) && is_message(e, m),
            None => r matches Ok((list, q)) && exists|n: CustomHistoryRoot|
                #[trigger] normalized(n, root) && saved_as(q, n, roots@, now@) && list@ == sorted_stable(
                    with_root(roots@, n, q),
                    false,
                ),
        },
{
    let mut root = normalize_root(root)?;
    let ghost n = root;
    let mut roots = roots;
    let ghost before = roots@;
    let key = root_path_key(root.path.as_str());
    match find_match(&roots, root.id.as_str(), key.as_str()) {
        Some(index) => {
            if root.id.unicode_len() == 0 {
                root.id = roots[index].id.clone();
            }
            if blank(root.created_at.as_str()) {
                root.created_at = roots[index].created_at.clone();
            }
            root.updated_at = now.to_string();
            roots.set(index, root.duplicate());
        },
        None => {
            if root.id.unicode_len() == 0 {
                root.id = unique_root_id(&roots, root.path.as_str());
            }
            if blank(root.created_at.as_str()) {
                root.created_at = now.to_string();
            }
            root.updated_at = now.to_string();
            roots.push(root.duplicate());
        },
    }
    assert(saved_as(root, n, before, now@));
    assert(roots@ =~= with_root(before, n, root));
    let list = sort_stable(roots, false);
    Ok((list, root))
}

/// The roots without those of id `id`, and whether any went.
pub fn remove_root(roots: Vec<CustomHistoryRoot>, id: &str) -> (r: (Vec<CustomHistoryRoot>, bool))
    ensures
        r.0@ == without_root(roots@, id@),
        r.1 == id_taken(roots@, id@),
{
    let ghost input = roots@;
    let mut kept: Vec<CustomHistoryRoot> = Vec::new();
    let mut rest = roots;
    let total = rest.len();
    let mut n: usize = 0;
    while rest.len() > 0
        invariant
            n + rest@.len() == input.len(),
            input.len() == total,
            rest@ == input.skip(n as int),
            kept@ == without_root(input.take(n as int), id@),
        decreases rest@.len(),
    {
        let p = rest.remove(0);
        let ghost gp = p;
        let ghost n0 = n as int;
        proof {
            assert(input.skip(n0 + 1) =~= input.skip(n0).drop_first());
            let s = input.take(n0 + 1);
            assert(s.drop_last() =~= input.take(n0));
            assert(s.last() == gp);
        }
        if !crate::text::same_text(p.id.as_str(), id) {
            kept.push(p);
        }
        n = n + 1;
    }
    assert(input.take(n as int) =~= input);
    proof {
        lemma_without_root_len(input, id@);
    }
    let removed = kept.len() < total;
    (kept, removed)
}

/// `roots` without those of id `id`, the others in their order.
pub open spec fn without_root(roots: Seq<CustomHistoryRoot>, id: Seq<char>) -> Seq<CustomHistoryRoot>
    decreases roots.len(),
{
    if roots.len() == 0 {
        roots
    } else if roots.last().id@ == id {
        without_root(roots.drop_last(), id)
    } else {
        without_root(roots.drop_last(), id).push(roots.last())
    }
}

pub proof fn lemma_without_root_len(roots: Seq<CustomHistoryRoot>, id: Seq<char>)
    ensures
        without_root(roots, id).len() <= roots.len(),
        without_root(roots, id).len() < roots.len() <==> id_taken(roots, id),
    decreases roots.len(),
{
    if roots.len() > 0 {
        let d = roots.drop_last();
        lemma_without_root_len(d, id);
        if roots.last().id@ == id {
            assert(roots[roots.len() - 1].id@ == id);
        } else {
            if id_taken(roots, id) {
                let i = choose|i: int| 0 <= i < roots.len() && #[trigger] roots[i].id@ == id;
                assert(d[i] == roots[i]);
            }
            if id_taken(d, id) {
                let i = choose|i: int| 0 <= i < d.len() && #[trigger] d[i].id@ == id;
                assert(d[i] == roots[i]);
            }
        }
    }
}

/// No two roots of `roots` share a path key.
pub open spec fn distinct_root_paths(roots: Seq<CustomHistoryRoot>) -> bool {
    forall|i: int, j: int|
        0 <= i < j < roots.len() ==> root_key(#[trigger] roots[i].path@) != root_key(#[trigger] roots[j].path@)
}

/// No two roots of `roots` agree on `f`.
pub open spec fn distinct_by(roots: Seq<CustomHistoryRoot>, f: spec_fn(CustomHistoryRoot) -> Seq<char>) -> bool {
    forall|i: int, j: int| 0 <= i < j < roots.len() ==> f(#[trigger] roots[i]) != f(#[trigger] roots[j])
}

proof fn lemma_distinct_after_insert(
    s: Seq<CustomHistoryRoot>,
    x: CustomHistoryRoot,
    f: spec_fn(CustomHistoryRoot) -> Seq<char>,
)
    requires
        distinct_by(s, f),
        forall|i: int| 0 <= i < s.len() ==> f(#[trigger] s[i]) != f(x),
    ensures
        distinct_by(crate::order::insert_sorted(s, x, false), f),
    decreases s.len(),
{
    broadcast use vstd::seq_lib::group_to_multiset_ensures;
    if s.len() > 0 && crate::order::goes_before(x, s.last(), false) {
        let d = s.drop_last();
        assert forall|i: int, j: int| 0 <= i < j < d.len() implies f(#[trigger] d[i]) != f(#[trigger] d[j]) by {
            assert(d[i] == s[i] && d[j] == s[j]);
        }
        assert forall|i: int| 0 <= i < d.len() implies f(#[trigger] d[i]) != f(x) by {
            assert(d[i] == s[i]);
        }
        lemma_distinct_after_insert(d, x, f);
        crate::order::lemma_insert_sorted_contents(d, x, false);
        let ins = crate::order::insert_sorted(d, x, false);
        let r = ins.push(s.last());
        assert forall|i: int, j: int| 0 <= i < j < r.len() implies f(#[trigger] r[i]) != f(#[trigger] r[j]) by {
            if j == r.len() - 1 {
                let y = ins[i];
                assert(ins.to_multiset().count(y) > 0);
                if y != x {
                    assert(d.to_multiset().count(y) > 0);
                    let k = choose|k: int| 0 <= k < d.len() && d[k] == y;
                    assert(s[k] == y);
                }
            } else {
                assert(r[i] == ins[i] && r[j] == ins[j]);
            }
        }
    } else if s.len() > 0 {
        let r = s.push(x);
        assert forall|i: int, j: int| 0 <= i < j < r.len() implies f(#[trigger] r[i]) != f(#[trigger] r[j]) by {
            if j < s.len() {
                assert(r[i] == s[i] && r[j] == s[j]);
            }
        }
    }
}

proof fn lemma_distinct_after_sort(s: Seq<CustomHistoryRoot>, f: spec_fn(CustomHistoryRoot) -> Seq<char>)
    requires
        distinct_by(s, f),
    ensures
        distinct_by(sorted_stable(s, false), f),
    decreases s.len(),
{
    broadcast use vstd::seq_lib::group_to_multiset_ensures;
    if s.len() > 0 {
        let d = s.drop_last();
        assert forall|i: int, j: int| 0 <= i < j < d.len() implies f(#[trigger] d[i]) != f(#[trigger] d[j]) by {
            assert(d[i] == s[i] && d[j] == s[j]);
        }
        lemma_distinct_after_sort(d, f);
        let sd = sorted_stable(d, false);
        crate::order::law_sorted_stable_permutes(d, false);
        assert forall|i: int| 0 <= i < sd.len() implies f(#[trigger] sd[i]) != f(s.last()) by {
            let y = sd[i];
            assert(sd.to_multiset().count(y) > 0);
            assert(d.to_multiset().count(y) > 0);
            let k = choose|k: int| 0 <= k < d.len() && d[k] == y;
            assert(s[k] == y);
        }
        lemma_distinct_after_insert(sd, s.last(), f);
    }
}

/// The path key of a root.
pub open spec fn path_key_of(r: CustomHistoryRoot) -> Seq<char> {
    root_key(r.path@)
}

proof fn lemma_paths_after_sort(s: Seq<CustomHistoryRoot>)
    requires
        distinct_root_paths(s),
    ensures
        distinct_root_paths(sorted_stable(s, false)),
{
    let f = |r: CustomHistoryRoot| path_key_of(r);
    assert forall|i: int, j: int| 0 <= i < j < s.len() implies f(#[trigger] s[i]) != f(#[trigger] s[j]) by {
        assert(root_key(s[i].path@) != root_key(s[j].path@));
    }
    lemma_distinct_after_sort(s, f);
    let t = sorted_stable(s, false);
    assert forall|i: int, j: int| 0 <= i < j < t.len() implies root_key(#[trigger] t[i].path@) != root_key(
        #[trigger] t[j].path@,
    ) by {
        assert(f(t[i]) != f(t[j]));
    }
}

/// Saving a new root (one without an id) into roots that all have ids and
/// distinct paths keeps the paths distinct: a root whose path is the same
/// once case, trailing separators and the kind of slash are set aside is
/// updated in place, not added again.
pub proof fn law_save_root_dedupes_paths(
    roots: Seq<CustomHistoryRoot>,
    n: CustomHistoryRoot,
    q: CustomHistoryRoot,
    now: Seq<char>,
)
    requires
        forall|i: int| 0 <= i < roots.len() ==> (#[trigger] roots[i]).id@.len() > 0,
        distinct_root_paths(roots),
        n.id@.len() == 0,
        saved_as(q, n, roots, now),
    ensures
        distinct_root_paths(sorted_stable(with_root(roots, n, q), false)),
        (exists|i: int| 0 <= i < roots.len() && root_key(#[trigger] roots[i].path@) == root_key(n.path@))
            ==> with_root(roots, n, q).len() == roots.len(),
{
    let key = root_key(n.path@);
    let w = with_root(roots, n, q);
    match first_match(roots, n.id@, key) {
        Some(i) => {
            assert(matches_root(roots[i], n.id@, key));
            assert(root_key(roots[i].path@) == key);
            assert forall|a: int, b: int| 0 <= a < b < w.len() implies root_key(#[trigger] w[a].path@) != root_key(
                #[trigger] w[b].path@,
            ) by {
                if a == i {
                    assert(w[b] == roots[b]);
                } else if b == i {
                    assert(w[a] == roots[a]);
                } else {
                    assert(w[a] == roots[a] && w[b] == roots[b]);
                }
            }
        },
        None => {
            assert forall|a: int| 0 <= a < roots.len() implies root_key(#[trigger] roots[a].path@) != key by {
                if root_key(roots[a].path@) == key {
                    assert(matches_root(roots[a], n.id@, key));
                }
            }
            assert forall|a: int, b: int| 0 <= a < b < w.len() implies root_key(#[trigger] w[a].path@) != root_key(
                #[trigger] w[b].path@,
            ) by {
                if b == roots.len() {
                    assert(w[a] == roots[a]);
                } else {
                    assert(w[a] == roots[a] && w[b] == roots[b]);
                }
            }
            if exists|i: int| 0 <= i < roots.len() && root_key(#[trigger] roots[i].path@) == key {
                let i = choose|i: int| 0 <= i < roots.len() && root_key(#[trigger] roots[i].path@) == key;
                assert(matches_root(roots[i], n.id@, key));
            }
        },
    }
    lemma_paths_after_sort(w);
}

proof fn lemma_free_number(roots: Seq<CustomHistoryRoot>, b: Seq<char>, k: nat, seen: Set<Seq<char>>)
    requires
        2 <= k,
        seen.finite(),
        seen.len() == k - 2,
        seen.subset_of(id_set(roots)),
        forall|j: nat| 2 <= j < k ==> id_taken(roots, #[trigger] numbered(b, j)),
        forall|x: Seq<char>| seen.contains(x) ==> exists|j: nat| 2 <= j < k && x == #[trigger] numbered(b, j),
    ensures
        exists|m: nat|
            m >= 2 && !id_taken(roots, numbered(b, m)) && forall|j: nat|
                2 <= j < m ==> id_taken(roots, #[trigger] numbered(b, j)),
    decreases roots.len() + 2 - k,
{
    lemma_id_set_finite(roots);
    vstd::set_lib::lemma_len_subset(seen, id_set(roots));
    let x = numbered(b, k);
    if !id_taken(roots, x) {
        assert(k >= 2 && !id_taken(roots, numbered(b, k)));
    } else {
        assert(!seen.contains(x)) by {
            if seen.contains(x) {
                let j = choose|j: nat| 2 <= j < k && x == #[trigger] numbered(b, j);
                lemma_numbered_injective(b, j, k);
            }
        }
        assert(id_set(roots).contains(x));
        let more = seen.insert(x);
        vstd::set_lib::lemma_len_subset(more, id_set(roots));
        assert forall|y: Seq<char>| more.contains(y) implies exists|j: nat|
            2 <= j < k + 1 && y == #[trigger] numbered(b, j) by {
            if y == x {
                assert(y == numbered(b, k));
            } else {
                let j = choose|j: nat| 2 <= j < k && y == #[trigger] numbered(b, j);
                assert(y == numbered(b, j));
            }
        }
        lemma_free_number(roots, b, k + 1, more);
    }
}

/// The fresh id of a new root is not empty and is no root's id.
proof fn lemma_fresh_id(roots: Seq<CustomHistoryRoot>, path: Seq<char>)
    ensures
        fresh_id(roots, path).len() > 0,
        !id_taken(roots, fresh_id(roots, path)),
{
    reveal_strlit("workspace-root");
    let b = base_id(path);
    assert(b.len() > 0);
    if id_taken(roots, b) {
        lemma_free_number(roots, b, 2, Set::empty());
        let k = choose|k: nat| k >= 2 && !id_taken(roots, numbered(b, k)) && forall|j: nat|
            2 <= j < k ==> id_taken(roots, #[trigger] numbered(b, j));
        assert(numbered(b, k).len() > 0);
    }
}

/// Every root of `roots` has an id, and no two share one.
pub open spec fn ids_sound(roots: Seq<CustomHistoryRoot>) -> bool {
    &&& forall|i: int| 0 <= i < roots.len() ==> (#[trigger] roots[i]).id@.len() > 0
    &&& forall|i: int, j: int| 0 <= i < j < roots.len() ==> (#[trigger] roots[i]).id@ != (#[trigger] roots[j]).id@
}

/// Where a root matches, a first one does.
proof fn lemma_first_match(roots: Seq<CustomHistoryRoot>, id: Seq<char>, key: Seq<char>, k: int)
    requires
        0 <= k < roots.len(),
        matches_root(roots[k], id, key),
    ensures
        first_match(roots, id, key) matches Some(i) && 0 <= i < roots.len() && matches_root(roots[i], id, key),
    decreases k,
{
    if exists|j: int| 0 <= j < k && #[trigger] matches_root(roots[j], id, key) {
        let j = choose|j: int| 0 <= j < k && #[trigger] matches_root(roots[j], id, key);
        lemma_first_match(roots, id, key, j);
    } else {
        assert(0 <= k < roots.len() && matches_root(roots[k], id, key) && forall|j: int|
            0 <= j < k ==> !matches_root(roots[j], id, key));
    }
}

proof fn lemma_with_root_ids(roots: Seq<CustomHistoryRoot>, n: CustomHistoryRoot, q: CustomHistoryRoot, now: Seq<char>)
    requires
        ids_sound(roots),
        n.id@.len() == 0,
        saved_as(q, n, roots, now),
    ensures
        ids_sound(with_root(roots, n, q)),
        with_root(roots, n, q).contains(q),
{
    let key = root_key(n.path@);
    let w = with_root(roots, n, q);
    if exists|k: int| 0 <= k < roots.len() && #[trigger] matches_root(roots[k], n.id@, key) {
        let k = choose|k: int| 0 <= k < roots.len() && #[trigger] matches_root(roots[k], n.id@, key);
        lemma_first_match(roots, n.id@, key, k);
    }
    match first_match(roots, n.id@, key) {
        Some(i) => {
            assert(matches_root(roots[i], n.id@, key));
            assert(q.id@ == roots[i].id@);
            assert(w[i] == q);
            assert forall|a: int| 0 <= a < w.len() implies (#[trigger] w[a]).id@ == roots[a].id@ by {
                if a != i {
                    assert(w[a] == roots[a]);
                }
            }
            assert forall|a: int, b: int| 0 <= a < b < w.len() implies (#[trigger] w[a]).id@ != (
            #[trigger] w[b]).id@ by {
                assert(w[a].id@ == roots[a].id@ && w[b].id@ == roots[b].id@);
            }
        },
        None => {
            lemma_fresh_id(roots, n.path@);
            assert(w[roots.len() as int] == q);
            assert forall|a: int| 0 <= a < roots.len() implies (#[trigger] roots[a]).id@ != q.id@ by {
                if roots[a].id@ == q.id@ {
                    assert(id_taken(roots, q.id@));
                }
            }
            assert forall|a: int, b: int| 0 <= a < b < w.len() implies (#[trigger] w[a]).id@ != (
            #[trigger] w[b]).id@ by {
                assert(w[a] == roots[a]);
                if b < roots.len() {
                    assert(w[b] == roots[b]);
                }
            }
            assert forall|a: int| 0 <= a < w.len() implies (#[trigger] w[a]).id@.len() > 0 by {
                if a < roots.len() {
                    assert(w[a] == roots[a]);
                }
            }
        },
    }
}

/// Saving a new root (one without an id) into roots that all have ids, no
/// two the same, gives a list that holds the saved root and whose ids are
/// again all there and distinct: the saved root takes the id of the root it
/// replaces, or a fresh one.
pub proof fn law_save_root_keeps_ids(
    roots: Seq<CustomHistoryRoot>,
    n: CustomHistoryRoot,
    q: CustomHistoryRoot,
    now: Seq<char>,
)
    requires
        ids_sound(roots),
        n.id@.len() == 0,
        saved_as(q, n, roots, now),
    ensures
        ids_sound(sorted_stable(with_root(roots, n, q), false)),
        sorted_stable(with_root(roots, n, q), false).contains(q),
{
    broadcast use vstd::seq_lib::group_to_multiset_ensures;
    let w = with_root(roots, n, q);
    lemma_with_root_ids(roots, n, q, now);
    let f = |r: CustomHistoryRoot| r.id@;
    assert forall|a: int, b: int| 0 <= a < b < w.len() implies f(#[trigger] w[a]) != f(#[trigger] w[b]) by {
        assert(w[a].id@ != w[b].id@);
    }
    lemma_distinct_after_sort(w, f);
    let t = sorted_stable(w, false);
    crate::order::law_sorted_stable_permutes(w, false);
    assert(w.to_multiset().count(q) > 0);
    assert(t.to_multiset().count(q) > 0);
    assert forall|a: int| 0 <= a < t.len() implies (#[trigger] t[a]).id@.len() > 0 by {
        let y = t[a];
        assert(t.to_multiset().count(y) > 0);
        assert(w.to_multiset().count(y) > 0);
        let k = choose|k: int| 0 <= k < w.len() && w[k] == y;
        assert(w[k].id@.len() > 0);
    }
    assert forall|a: int, b: int| 0 <= a < b < t.len() implies (#[trigger] t[a]).id@ != (#[trigger] t[b]).id@ by {
        assert(f(t[a]) != f(t[b]));
    }
}

/// `lists` are the saved roots after each of `saves`, starting from none:
/// each save is a root without an id (`.0`, normalised), saved as `.1` at
/// the time `.2`.
pub open spec fn draft_saves(
    lists: Seq<Seq<CustomHistoryRoot>>,
    saves: Seq<(CustomHistoryRoot, CustomHistoryRoot, Seq<char>)>,
) -> bool {
    &&& lists.len() == saves.len() + 1
    &&& lists[0].len() == 0
    &&& forall|k: int|
        0 <= k < saves.len() ==> {
            &&& (#[trigger] saves[k]).0.id@.len() == 0
            &&& saved_as(saves[k].1, saves[k].0, lists[k], saves[k].2)
            &&& lists[k + 1] == sorted_stable(with_root(lists[k], saves[k].0, saves[k].1), false)
        }
}

/// Roots saved one after another without ids, from no roots at all, stay
/// apart: after every save the list holds the root just saved, is in label
/// and path order, no two roots share an id or a path key, and every id is
/// set.
pub proof fn law_draft_saves_keep_roots_apart(
    lists: Seq<Seq<CustomHistoryRoot>>,
    saves: Seq<(CustomHistoryRoot, CustomHistoryRoot, Seq<char>)>,
    k: int,
)
    requires
        draft_saves(lists, saves),
        0 <= k < lists.len(),
    ensures
        ids_sound(lists[k]),
        distinct_root_paths(lists[k]),
        k > 0 ==> lists[k].contains(saves[k - 1].1),
        k > 0 ==> crate::order::in_key_order(lists[k], false),
    decreases k,
{
    if k > 0 {
        law_draft_saves_keep_roots_apart(lists, saves, k - 1);
        let (n, q, now) = saves[k - 1];
        assert(saves[k - 1].0.id@.len() == 0);
        assert(lists[k] == sorted_stable(with_root(lists[k - 1], n, q), false));
        law_save_root_keeps_ids(lists[k - 1], n, q, now);
        law_save_root_dedupes_paths(lists[k - 1], n, q, now);
        crate::order::law_sorted_stable_in_order(with_root(lists[k - 1], n, q), false);
    }
}

/// Saves `root` into `roots` at the current time.
pub fn save_root_into(roots: Vec<CustomHistoryRoot>, root: CustomHistoryRoot) -> (r: Result<
    (Vec<CustomHistoryRoot>, CustomHistoryRoot),
    RemoteCodexError,
>)
    requires
        roots@.len() + 2 <= usize::MAX,
    ensures
        match root_problem(root) {
            Some(m) => r matches Err(e) && is_message(e, m),
            None => r matches Ok((list, q)) && exists|n: CustomHistoryRoot, now: Seq<char>|
                #[trigger] normalized(n, root) && #[trigger] saved_as(q, n, roots@, now)
                    && crate::profile::clock_time(now) && list@ == sorted_stable(with_root(roots@, n, q), false),
        },
{
    let now = crate::profile::utc_now_rfc3339();
    assert(crate::profile::clock_time(now@));
    save_root_at(roots, root, now.as_str())
}

// ---------------------------------------------------------------------------
// Where roots are kept
// ---------------------------------------------------------------------------

/// The directory under which saved roots are kept.
#[derive(Clone, Debug)]
pub struct HistoryRootStore {
    pub config_dir: String,
}

impl HistoryRootStore {
    /// The store of this user: `RemoteCodexAPI` under the configuration
    /// directory, or under the home directory, or under `.`.
    pub fn default_store() -> (r: Self)
        ensures
            exists|base: Seq<char>| #[trigger] placed(base, "RemoteCodexAPI"@, r.config_dir@),
    {
        let base = crate::profile::store_base(config_dir(), home_dir());
        let r = Self::in_dir(base.as_str());
        assert(placed(base@, "RemoteCodexAPI"@, r.config_dir@));
        r
    }

    /// The store kept in `RemoteCodexAPI` under the directory `base`.
    pub fn in_dir(base: &str) -> (r: Self)
        ensures
            placed(base@, "RemoteCodexAPI"@, r.config_dir@),
    {
        proof {
            reveal_strlit("RemoteCodexAPI");
        }
        Self::new(path_join(base, "RemoteCodexAPI"))
    }

    pub fn new(config_dir: String) -> (r: Self)
        ensures
            r.config_dir == config_dir,
    {
        HistoryRootStore { config_dir }
    }

    /// The file that holds the saved roots.
    pub fn roots_path(&self) -> (r: String)
        ensures
            placed(self.config_dir@, "history_roots.json"@, r@),
    {
        proof {
            reveal_strlit("history_roots.json");
        }
        path_join(self.config_dir.as_str(), "history_roots.json")
    }
}

} // verus!
