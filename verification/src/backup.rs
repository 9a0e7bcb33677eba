//! Backups of a Codex home: how a backup is named, what its manifest holds,
//! the order in which backups are listed, and how the first line of a
//! session file is put back.
use vstd::prelude::*;

use crate::json_value::{
    get_str, json_insert, json_object, json_parse, json_parsed, json_pretty_text, json_string,
    json_to_pretty, json_tree, key_path, member_str, str_value, empty_object, JsonTree,
};
use crate::order::{sort_stable, sorted_stable, SortKey};
use crate::codex_paths::{files_under, joined, laid_out, path_join, placed, plain_name, verbatim, CodexPaths};
use crate::profile::is_message;
use crate::text::{ascii_alnum, chars_of, concat, is_ascii_alnum, line_split, split_line, string_of};
use crate::tree::graft;
use crate::RemoteCodexError;

verus! {

/// One backup: its id (also its directory's name), the label it was made
/// with, when it was made (RFC 3339, UTC, whole seconds) and its directory.
#[derive(Clone, Debug)]
pub struct BackupRecord {
    pub id: String,
    pub label: String,
    pub created_at: String,
    pub path: String,
}

impl SortKey for BackupRecord {
    open spec fn key_view(&self) -> Seq<Seq<char>> {
        seq![self.created_at@]
    }

    fn sort_key(&self) -> (r: Vec<Vec<char>>)
        ensures
            r.deep_view() == self.key_view(),
    {
        let mut r: Vec<Vec<char>> = Vec::new();
        r.push(chars_of(self.created_at.as_str()));
        assert(r.deep_view()[0] =~= r@[0]@);
        assert(r.deep_view() =~= self.key_view());
        r
    }
}

/// A character a label keeps in a backup id.
pub open spec fn label_char(c: char) -> bool {
    is_ascii_alnum(c) || c == '-' || c == '_'
}

/// The characters of `s` that a backup id keeps.
pub open spec fn label_chars(s: Seq<char>) -> Seq<char>
    decreases s.len(),
{
    if s.len() == 0 {
        s
    } else if label_char(s.last()) {
        label_chars(s.drop_last()).push(s.last())
    } else {
        label_chars(s.drop_last())
    }
}

/// A label as it stands in a backup id: its ASCII letters, digits, `-`
/// and `_`, or `backup` where none is left.
pub open spec fn label_part(label: Seq<char>) -> Seq<char> {
    if label_chars(label).len() == 0 {
        "backup"@
    } else {
        label_chars(label)
    }
}

/// Keeps the label characters a backup id may hold.
pub fn sanitize_label(label: &str) -> (r: String)
    ensures
        r@ == label_part(label@),
{
    let v = chars_of(label);
    let mut out: Vec<char> = Vec::new();
    let mut i: usize = 0;
    while i < v.len()
        invariant
            v@ == label@,
            i <= v@.len(),
            out@ == label_chars(v@.take(i as int)),
        decreases v@.len() - i,
    {
        assert(v@.take(i + 1).drop_last() =~= v@.take(i as int));
        let c = v[i];
        if ascii_alnum(c) || c == '-' || c == '_' {
            out.push(c);
        }
        i = i + 1;
    }
    assert(v@.take(v@.len() as int) =~= v@);
    if out.len() == 0 {
        "backup".to_string()
    } else {
        string_of(out.as_slice())
    }
}

/// A time stamp as it stands in a backup id: `:` and `-` taken out, `T`
/// made `-`, `Z` taken out.
pub open spec fn stamp_part(s: Seq<char>) -> Seq<char>
    decreases s.len(),
{
    if s.len() == 0 {
        s
    } else {
        let before = stamp_part(s.drop_last());
        let c = s.last();
        if c == ':' || c == '-' || c == 'Z' {
            before
        } else if c == 'T' {
            before.push('-')
        } else {
            before.push(c)
        }
    }
}

/// The id of a backup made at `created_at` with `label`.
pub open spec fn backup_id_of(created_at: Seq<char>, label: Seq<char>) -> Seq<char> {
    stamp_part(created_at) + "-"@ + label_part(label)
}

/// The id of a backup made at `created_at` with `label`.
pub fn backup_id(created_at: &str, label: &str) -> (r: String)
    ensures
        r@ == backup_id_of(created_at@, label@),
{
    let v = chars_of(created_at);
    let mut out: Vec<char> = Vec::new();
    let mut i: usize = 0;
    while i < v.len()
        invariant
            v@ == created_at@,
            i <= v@.len(),
            out@ == stamp_part(v@.take(i as int)),
        decreases v@.len() - i,
    {
        assert(v@.take(i + 1).drop_last() =~= v@.take(i as int));
        let c = v[i];
        if c == ':' || c == '-' || c == 'Z' {
        } else if c == 'T' {
            out.push('-');
        } else {
            out.push(c);
        }
        i = i + 1;
    }
    assert(v@.take(v@.len() as int) =~= v@);
    let stamp = string_of(out.as_slice());
    let with_dash = concat(stamp.as_str(), "-");
    let part = sanitize_label(label);
    concat(with_dash.as_str(), part.as_str())
}

/// The record of a backup made now in `backup_dir` with `label`, where
/// `created_at` is the time it is made at.
pub fn new_backup_record(backup_dir: &str, label: &str, created_at: String) -> (r: BackupRecord)
    ensures
        r.id@ == backup_id_of(created_at@, label@),
        r.label@ == label@,
        r.created_at@ == created_at@,
        plain_name(r.id@) ==> placed(backup_dir@, r.id@, r.path@),
{
    let id = backup_id(created_at.as_str(), label);
    let path = path_join(backup_dir, id.as_str());
    BackupRecord { id, label: label.to_string(), created_at, path }
}

/// The tree of a backup's manifest: its id, label and creation time.
pub open spec fn manifest_tree(id: Seq<char>, label: Seq<char>, created_at: Seq<char>) -> JsonTree {
    graft(
        graft(graft(empty_object(), key_path("id"@), str_value(id)), key_path("label"@), str_value(label)),
        key_path("createdAt"@),
        str_value(created_at),
    )
}

/// The text of a backup's manifest file: `serde_json`'s indented form and
/// a final line feed.
pub fn backup_manifest_text(record: &BackupRecord) -> (r: String)
    ensures
        r@ == json_pretty_text(manifest_tree(record.id@, record.label@, record.created_at@)) + "\n"@,
{
    let mut object = json_object();
    json_insert(&mut object, "id".to_string(), json_string(record.id.clone()));
    json_insert(&mut object, "label".to_string(), json_string(record.label.clone()));
    json_insert(&mut object, "createdAt".to_string(), json_string(record.created_at.clone()));
    let mut out = match json_to_pretty(&object) {
        Ok(text) => text,
        Err(_) => String::new(),
    };
    out.append("\n");
    out
}

/// The text of a member of a manifest, empty where it holds no string.
pub open spec fn manifest_field(t: JsonTree, key: Seq<char>) -> Seq<char> {
    match member_str(t, key) {
        Some(s) => s,
        None => Seq::empty(),
    }
}

fn field_or_empty(v: &serde_json::Value, key: &str) -> (r: String)
    ensures
        r@ == manifest_field(json_tree(*v), key@),
{
    match get_str(v, key) {
        Some(s) => s,
        None => String::new(),
    }
}

/// The record of the backup in directory `path` whose manifest file holds
/// `text`.
pub fn record_from_manifest(text: &str, path: String) -> (r: Result<BackupRecord, RemoteCodexError>)
    ensures
        match json_parsed(text@) {
            None => r matches Err(RemoteCodexError::Json(_)),
            Some(t) => r matches Ok(rec) && rec.id@ == manifest_field(t, "id"@) && rec.label@
                == manifest_field(t, "label"@) && rec.created_at@ == manifest_field(t, "createdAt"@)
                && rec.path@ == path@,
        },
{
    let value = match json_parse(text) {
        Ok(v) => v,
        Err(e) => {
            return Err(RemoteCodexError::Json(e));
        },
    };
    Ok(BackupRecord {
        id: field_or_empty(&value, "id"),
        label: field_or_empty(&value, "label"),
        created_at: field_or_empty(&value, "createdAt"),
        path,
    })
}

/// Orders backups newest first, by creation time; backups made at the same
/// time keep their order.
pub fn sort_backups(records: Vec<BackupRecord>) -> (r: Vec<BackupRecord>)
    ensures
        r@ == sorted_stable(records@, true),
{
    sort_stable(records, true)
}

/// Splits off the first line of a session file; a file of one line without
/// an ending gets no ending.
pub fn split_first_line(text: &str) -> (r: Option<(String, String, String)>)
    ensures
        match line_split(text@, Seq::empty()) {
            Some((a, b, c)) => r matches Some((x, y, z)) && x@ == a && y@ == b && z@ == c,
            None => r is None,
        },
{
    proof {
        reveal_strlit("");
        assert(""@ =~= Seq::<char>::empty());
    }
    split_line(text, "")
}

/// What follows a restored first line: the ending and the rest of the file
/// as it is now (`None` where there is no file), or a line feed where there
/// is nothing to keep.
pub open spec fn kept_remainder(existing: Option<Seq<char>>) -> Seq<char> {
    match existing {
        Some(text) => match line_split(text, Seq::empty()) {
            Some((_, ending, rest)) => ending + rest,
            None => "\n"@,
        },
        None => "\n"@,
    }
}

/// The text of a session file whose first line is put back to `first_line`,
/// given its text now.
pub fn restored_text(existing: Option<&str>, first_line: &str) -> (r: String)
    ensures
        r@ == first_line@ + kept_remainder(crate::text::opt_str(existing)),
{
    let remainder = match existing {
        Some(text) => match split_first_line(text) {
            Some((_, ending, rest)) => concat(ending.as_str(), rest.as_str()),
            None => "\n".to_string(),
        },
        None => "\n".to_string(),
    };
    concat(first_line, remainder.as_str())
}

/// The error for a backup id with no backup.
pub fn backup_not_found(backup_id: &str) -> (e: RemoteCodexError)
    ensures
        is_message(e, "backup not found: "@ + backup_id@),
{
    RemoteCodexError::Message(concat("backup not found: ", backup_id))
}

/// A text without line breaks.
pub open spec fn one_line(s: Seq<char>) -> bool {
    !s.contains('\n') && !s.contains('\r')
}

proof fn lemma_first_line_of_split(f: Seq<char>, e: Seq<char>, r: Seq<char>)
    requires
        one_line(f),
        e == seq!['\n'] || e == seq!['\r', '\n'],
    ensures
        crate::text::first_line(f + e + r) == f,
{
    let s = f + e + r;
    let head = if e == seq!['\n'] {
        f
    } else {
        f.push('\r')
    };
    assert(!head.contains('\n')) by {
        if head.contains('\n') {
            let k = choose|k: int| 0 <= k < head.len() && head[k] == '\n';
            if k < f.len() {
                assert(f[k] == '\n');
            }
        }
    }
    assert(s =~= head + seq!['\n'] + r);
    crate::text::lemma_split_first(head, r, '\n');
    let parts = crate::text::split(s, '\n');
    assert(crate::text::lines(s)[0] == crate::text::strip_cr(parts[0]));
    if e == seq!['\n'] {
        if f.len() > 0 {
            assert(f[f.len() - 1] != '\r');
        }
    } else {
        assert(head.drop_last() =~= f);
    }
}

/// The occurrences of a line break in `x + e + r`, where `x` has none.
proof fn lemma_split_after_line(x: Seq<char>, e: Seq<char>, r: Seq<char>)
    requires
        one_line(x),
        e == seq!['\r', '\n'] || (e == seq!['\n'] && forall|j: int| !crate::text::occurs_at(e + r, seq!['\r', '\n'], j)),
    ensures
        line_split(x + e + r, Seq::empty()) == Some((x, e, r)),
{
    let s = x + e + r;
    let crlf = seq!['\r', '\n'];
    let lf = seq!['\n'];
    assert forall|j: int| 0 <= j < x.len() implies !crate::text::occurs_at(s, crlf, j) && !crate::text::occurs_at(
        s,
        lf,
        j,
    ) by {
        assert(s[j] == x[j]);
        if crate::text::occurs_at(s, crlf, j) {
            assert(s.subrange(j, j + 2)[0] == s[j]);
        }
        if crate::text::occurs_at(s, lf, j) {
            assert(s.subrange(j, j + 1)[0] == s[j]);
        }
    }
    if e == crlf {
        assert(s.subrange(x.len() as int, x.len() as int + 2) =~= crlf);
        crate::text::lemma_find_first(s, crlf, x.len() as int);
        assert(s.take(x.len() as int) =~= x);
        assert(s.skip(x.len() as int + 2) =~= r);
    } else {
        assert forall|j: int| !crate::text::occurs_at(s, crlf, j) by {
            if j >= x.len() && crate::text::occurs_at(s, crlf, j) {
                let k = j - x.len();
                assert(s.subrange(j, j + 2) =~= (e + r).subrange(k, k + 2));
                assert(crate::text::occurs_at(e + r, crlf, k));
            }
        }
        crate::text::lemma_find_none(s, crlf);
        assert(s.subrange(x.len() as int, x.len() as int + 1) =~= lf);
        crate::text::lemma_find_first(s, lf, x.len() as int);
        assert(s.take(x.len() as int) =~= x);
        assert(s.skip(x.len() as int + 1) =~= r);
    }
}

/// A split line put together again is the text; where the line ends with a
/// line feed alone, the text holds no carriage return before a line feed.
proof fn lemma_line_split_whole(text: Seq<char>)
    requires
        line_split(text, Seq::empty()) is Some,
    ensures
        ({
            let (f, e, r) = line_split(text, Seq::empty())->0;
            &&& e.len() > 0 ==> text == f + e + r
            &&& e == seq!['\n'] ==> forall|j: int| !crate::text::occurs_at(text, seq!['\r', '\n'], j)
        }),
{
    let crlf = seq!['\r', '\n'];
    let lf = seq!['\n'];
    let cr = seq!['\r'];
    crate::text::lemma_find_none(text, crlf);
    crate::text::lemma_find_some(text, crlf);
    crate::text::lemma_find_some(text, lf);
    crate::text::lemma_find_some(text, cr);
    let (f, e, r) = line_split(text, Seq::empty())->0;
    match crate::text::find(text, crlf) {
        Some(i) => {
            assert(crate::text::occurs_at(text, crlf, i));
            assert(text =~= f + e + r);
        },
        None => match crate::text::find(text, lf) {
            Some(i) => {
                assert(crate::text::occurs_at(text, lf, i));
                assert(text =~= f + e + r);
            },
            None => match crate::text::find(text, cr) {
                Some(i) => {
                    assert(crate::text::occurs_at(text, cr, i));
                    assert(text =~= f + e + r);
                },
                None => {},
            },
        },
    }
}

/// Restoring a backup puts the first line of a session file back: where a
/// file's first line ends with a line feed (or carriage return and line
/// feed), and only that line was replaced since, by another line, putting
/// back the line recorded at backup time gives the file as it was.
pub proof fn law_restore_first_line(text: Seq<char>, replaced: Seq<char>)
    requires
        line_split(text, Seq::empty()) matches Some((f, e, _)) && one_line(f) && (e == seq!['\n'] || e
            == seq!['\r', '\n']),
        one_line(replaced),
    ensures
        line_split(text, Seq::empty()) matches Some((_, e, rest)) && crate::text::first_line(text)
            + kept_remainder(Some(replaced + e + rest)) == text,
{
    let crlf = seq!['\r', '\n'];
    let (f, e, r) = line_split(text, Seq::empty())->0;
    lemma_line_split_whole(text);
    assert(text == f + e + r);
    if e == seq!['\n'] {
        assert forall|j: int| !crate::text::occurs_at(e + r, crlf, j) by {
            if crate::text::occurs_at(e + r, crlf, j) {
                assert(text.subrange(f.len() + j, f.len() + j + 2) =~= (e + r).subrange(j, j + 2));
                assert(crate::text::occurs_at(text, crlf, f.len() + j));
            }
        }
    }
    lemma_first_line_of_split(f, e, r);
    lemma_split_after_line(replaced, e, r);
}

/// The files a backup keeps, each with its name inside the backup and the
/// place it lives in the Codex home: the configuration, the login, the
/// database, the session index and the desktop client's global state.  A
/// backup copies each from its place to its name; a restore copies each back.
pub open spec fn backed_up_files(paths: CodexPaths) -> Seq<(Seq<char>, Seq<char>)> {
    seq![
        ("config.toml"@, paths.config_path@),
        ("auth.json"@, paths.auth_path@),
        ("state_5.sqlite"@, paths.db_path@),
        ("session_index.jsonl"@, paths.session_index_path@),
        (".codex-global-state.json"@, paths.global_state_path@),
    ]
}

/// The text of a list of name and place pairs.
pub open spec fn pair_views(pairs: Seq<(String, String)>) -> Seq<(Seq<char>, Seq<char>)> {
    pairs.map_values(|p: (String, String)| (p.0@, p.1@))
}

/// The files a backup of `paths` keeps: (name inside the backup, place in
/// the Codex home).
pub fn backup_files(paths: &CodexPaths) -> (r: Vec<(String, String)>)
    ensures
        pair_views(r@) == backed_up_files(*paths),
{
    let mut r: Vec<(String, String)> = Vec::new();
    r.push(("config.toml".to_string(), paths.config_path.clone()));
    r.push(("auth.json".to_string(), paths.auth_path.clone()));
    r.push(("state_5.sqlite".to_string(), paths.db_path.clone()));
    r.push(("session_index.jsonl".to_string(), paths.session_index_path.clone()));
    r.push((".codex-global-state.json".to_string(), paths.global_state_path.clone()));
    assert(pair_views(r@) =~= backed_up_files(*paths));
    r
}

/// Two different plain names joined to one base give different paths.
proof fn lemma_joined_apart(base: Seq<char>, a: Seq<char>, b: Seq<char>, ra: Seq<char>, rb: Seq<char>)
    requires
        plain_name(a),
        plain_name(b),
        a != b,
        joined(base, a, ra),
        joined(base, b, rb),
    ensures
        ra != rb,
{
    let ma = choose|m: Seq<char>|
        #![trigger base + m + a]
        ra == base + m + a && (m.len() == 0 || (m.len() == 1 && crate::text::is_sep(m[0])));
    let mb = choose|m: Seq<char>|
        #![trigger base + m + b]
        rb == base + m + b && (m.len() == 0 || (m.len() == 1 && crate::text::is_sep(m[0])));
    let h = base.len() as int;
    if ra == rb {
        if ma.len() == mb.len() {
            assert(ra.skip(h + ma.len()) =~= a);
            assert(rb.skip(h + mb.len()) =~= b);
        } else if ma.len() == 0 {
            assert(ra[h] == a[0]);
            assert(rb[h] == mb[0]);
        } else {
            assert(ra[h] == ma[0]);
            assert(rb[h] == b[0]);
        }
    }
}

/// A backup keeps five different files under five different names: for the
/// layout of a Codex home, no two kept files share a name inside the backup
/// or a place in the home, so a restore puts each file back where the
/// backup took it from and none over another.
pub proof fn law_backup_files_apart(paths: CodexPaths)
    requires
        laid_out(paths, paths.codex_home@),
        !verbatim(paths.codex_home@),
    ensures
        forall|i: int, j: int|
            0 <= i < j < 5 ==> (#[trigger] backed_up_files(paths)[i]).0 != (#[trigger] backed_up_files(
                paths,
            )[j]).0 && backed_up_files(paths)[i].1 != backed_up_files(paths)[j].1,
{
    reveal_strlit("config.toml");
    reveal_strlit("auth.json");
    reveal_strlit("state_5.sqlite");
    reveal_strlit("session_index.jsonl");
    reveal_strlit(".codex-global-state.json");
    let home = paths.codex_home@;
    let files = backed_up_files(paths);
    assert(files_under(paths, home));
    assert forall|i: int| 0 <= i < 5 implies plain_name(#[trigger] files[i].0) && joined(
        home,
        files[i].0,
        files[i].1,
    ) && files[i].0.len() == seq![11int, 9, 14, 19, 24][i] by {}
    assert forall|i: int, j: int| 0 <= i < j < 5 implies (#[trigger] files[i]).0 != (#[trigger] files[j]).0
        && files[i].1 != files[j].1 by {
        assert(files[i].0.len() != files[j].0.len());
        lemma_joined_apart(home, files[i].0, files[j].0, files[i].1, files[j].1);
    }
}

} // verus!
