//! Where Codex keeps its files.
use vstd::prelude::*;

use crate::text::{chars_of, is_sep, opt_str, opt_string, starts_with, str_trim, string_of, trim};

verus! {

/// `base` joined with the relative path `name`: `name` follows `base`, with
/// at most one separator between them.
pub open spec fn joined(base: Seq<char>, name: Seq<char>, r: Seq<char>) -> bool {
    exists|m: Seq<char>|
        #![trigger base + m + name]
        r == base + m + name && (m.len() == 0 || (m.len() == 1 && is_sep(m[0])))
}

/// A file name with no separator and no drive in it.
pub open spec fn plain_name(name: Seq<char>) -> bool {
    name.len() > 0 && forall|i: int| 0 <= i < name.len() ==> !is_sep(#[trigger] name[i]) && name[i] != ':'
}

/// A relative path: not empty, not starting with a separator, with no drive
/// or `:` in it.
pub open spec fn relative_name(name: Seq<char>) -> bool {
    name.len() > 0 && !is_sep(name[0]) && forall|i: int| 0 <= i < name.len() ==> #[trigger] name[i] != ':'
}

/// A path that opens with the Windows verbatim prefix `\\?\` (either
/// separator counted in each place).
pub open spec fn verbatim(p: Seq<char>) -> bool {
    p.len() >= 4 && is_sep(p[0]) && is_sep(p[1]) && p[2] == '?' && is_sep(p[3])
}

/// `s` ends with `t`.
pub open spec fn ends_with(s: Seq<char>, t: Seq<char>) -> bool {
    t.len() <= s.len() && s.subrange(s.len() - t.len(), s.len() as int) == t
}

/// A base that `Path::join` extends the same way on every platform: not
/// empty, not ending in a separator, with no drive or `:` in it, and not
/// verbatim.
pub open spec fn settled(base: Seq<char>) -> bool {
    base.len() > 0 && !is_sep(base.last()) && !base.contains(':') && !verbatim(base)
}

/// `r` is `base`, one separator, then `name`.
pub open spec fn sep_joined(base: Seq<char>, name: Seq<char>, r: Seq<char>) -> bool {
    &&& r.len() == base.len() + 1 + name.len()
    &&& r.take(base.len() as int) == base
    &&& is_sep(r[base.len() as int])
    &&& r.skip(base.len() + 1int) == name
}

/// What `Path::join` gives for the relative path `name` under `base`, as
/// far as it is the same on every platform: for a base that is not
/// verbatim, the name follows the base with at most one separator between;
/// for a settled base exactly one; an empty base gives the name alone, and a
/// base ending in `/` is followed by the name directly.  Under any base, a
/// plain file name other than `.` and `..` ends the result.
pub open spec fn placed(base: Seq<char>, name: Seq<char>, r: Seq<char>) -> bool {
    &&& (plain_name(name) && name != "."@ && name != ".."@) ==> ends_with(r, name)
    &&& !verbatim(base) ==> joined(base, name, r)
    &&& settled(base) ==> sep_joined(base, name, r)
    &&& base.len() == 0 ==> r == name
    &&& (base.len() > 0 && base.last() == '/' && !verbatim(base)) ==> r == base + name
}

/// `Path::join`, as text, for a relative path (of absolute paths and paths
/// with a drive, which replace the base, nothing is stated).  The name is appended to
/// `base` after a separator where the base does not end in one; the separator
/// added is `/` or `\` by platform, and a base ending in `\` is followed
/// by the name directly on Windows but by `/` elsewhere, so only "at most one
/// separator" is stated there.  A Windows drive alone (`C:`) takes no
/// separator, hence bases with `:` are left out of the "exactly one" clause.
/// Under a verbatim base (`\\?\`), `PathBuf::push` normalises the whole
/// path, dropping its `.` and `..` parts and reading `/` as `\`: only that
/// the result ends with a plain file name is stated there.
#[verifier::external_body]
pub(crate) fn path_join(base: &str, name: &str) -> (r: String)
    ensures
        relative_name(name@) ==> placed(base@, name@, r@),
{
    std::path::Path::new(base).join(name).to_string_lossy().into_owned()
}

/// The files and directories of one Codex home.
#[derive(Clone, Debug)]
pub struct CodexPaths {
    pub codex_home: String,
    pub config_path: String,
    pub auth_path: String,
    pub db_path: String,
    pub sessions_dir: String,
    pub session_index_path: String,
    pub global_state_path: String,
    pub backup_dir: String,
}

/// Each file of the layout is its name joined to `home`.
pub open spec fn files_under(paths: CodexPaths, home: Seq<char>) -> bool {
    &&& placed(home, "config.toml"@, paths.config_path@)
    &&& placed(home, "auth.json"@, paths.auth_path@)
    &&& placed(home, "state_5.sqlite"@, paths.db_path@)
    &&& placed(home, "sessions"@, paths.sessions_dir@)
    &&& placed(home, "session_index.jsonl"@, paths.session_index_path@)
    &&& placed(home, ".codex-global-state.json"@, paths.global_state_path@)
    &&& placed(home, "codex_profile_tray_backups"@, paths.backup_dir@)
}

/// `paths` is the layout under `home`.
pub open spec fn laid_out(paths: CodexPaths, home: Seq<char>) -> bool {
    &&& paths.codex_home@ == home
    &&& files_under(paths, home)
}

impl CodexPaths {
    /// The layout of the Codex home `home`.
    pub fn from_home(home: &str) -> (r: Self)
        ensures
            laid_out(r, home@),
    {
        proof {
            reveal_strlit("config.toml");
            reveal_strlit("auth.json");
            reveal_strlit("state_5.sqlite");
            reveal_strlit("sessions");
            reveal_strlit("session_index.jsonl");
            reveal_strlit(".codex-global-state.json");
            reveal_strlit("codex_profile_tray_backups");
        }
        CodexPaths {
            config_path: path_join(home, "config.toml"),
            auth_path: path_join(home, "auth.json"),
            db_path: path_join(home, "state_5.sqlite"),
            sessions_dir: path_join(home, "sessions"),
            session_index_path: path_join(home, "session_index.jsonl"),
            global_state_path: path_join(home, ".codex-global-state.json"),
            backup_dir: path_join(home, "codex_profile_tray_backups"),
            codex_home: home.to_string(),
        }
    }
}

/// `dirs::home_dir`, as text.  It depends on the environment: nothing is
/// stated of it.
#[verifier::external_body]
pub(crate) fn home_dir() -> (r: Option<String>) {
    dirs::home_dir().map(|p| p.to_string_lossy().into_owned())
}

/// `~` alone, or `~/` followed by `rest`: what `expand_tilde` replaces.
pub open spec fn tilde_rest(value: Seq<char>) -> Option<Seq<char>> {
    if "~/"@.is_prefix_of(value) {
        Some(value.skip(2))
    } else {
        None
    }
}

/// `value` with a leading `~` read as the home directory `home`, where
/// there is one.  `expanded` holds of the result.
pub open spec fn expanded(value: Seq<char>, home: Option<Seq<char>>, r: Seq<char>) -> bool {
    if value == "~"@ {
        r == match home {
            Some(h) => h,
            None => value,
        }
    } else if tilde_rest(value) is Some && home is Some {
        relative_name(tilde_rest(value)->0) ==> placed(home->0, tilde_rest(value)->0, r)
    } else {
        r == value
    }
}

/// Expands a leading `~` with the home directory `home`.
pub fn expand_tilde(value: &str, home: Option<&str>) -> (r: String)
    ensures
        expanded(value@, opt_str(home), r@),
{
    proof {
        reveal_strlit("~");
        reveal_strlit("~/");
    }
    let v = chars_of(value);
    if v.len() == 1 && v[0] == '~' {
        assert(value@ =~= "~"@);
        return match home {
            Some(h) => h.to_string(),
            None => value.to_string(),
        };
    }
    assert(value@ != "~"@ ==> !(v@.len() == 1 && v@[0] == '~')) by {
        if v@.len() == 1 && v@[0] == '~' {
            assert(value@ =~= "~"@);
        }
    }
    if starts_with(value, "~/") {
        if let Some(h) = home {
            let mut rest: Vec<char> = Vec::new();
            let mut i: usize = 2;
            while i < v.len()
                invariant
                    2 <= i <= v.len(),
                    v@ == value@,
                    rest@ == v@.subrange(2, i as int),
                decreases v.len() - i,
            {
                rest.push(v[i]);
                i = i + 1;
                assert(rest@ =~= v@.subrange(2, i as int));
            }
            assert(rest@ =~= value@.skip(2));
            let rest_text = string_of(rest.as_slice());
            return path_join(h, rest_text.as_str());
        }
    }
    value.to_string()
}

/// The home directory, or `.` where there is none.
pub open spec fn home_or_dot(home: Option<Seq<char>>) -> Seq<char> {
    match home {
        Some(h) => h,
        None => "."@,
    }
}

/// The Codex home chosen by `resolve`: the given directory (trimmed, with
/// `~` expanded) when one is given and not blank, else `.codex` under the
/// home directory (or under `.` where there is none).
pub open spec fn resolved(codex_home: Option<Seq<char>>, home: Option<Seq<char>>, paths: CodexPaths) -> bool {
    match codex_home {
        Some(v) if trim(v).len() > 0 => expanded(trim(v), home, paths.codex_home@) && laid_out(
            paths,
            paths.codex_home@,
        ),
        _ => placed(home_or_dot(home), ".codex"@, paths.codex_home@) && laid_out(paths, paths.codex_home@),
    }
}

impl CodexPaths {
    /// The layout of the Codex home that `codex_home` names, given the home
    /// directory `home`.
    pub fn resolve_with_home(codex_home: Option<&str>, home: Option<&str>) -> (r: Self)
        ensures
            resolved(
                opt_str(codex_home),
                opt_str(home),
                r,
            ),
    {
        proof {
            reveal_strlit(".codex");
        }
        if let Some(value) = codex_home {
            let t = str_trim(value);
            if t.unicode_len() > 0 {
                let h = expand_tilde(t, home);
                return Self::from_home(h.as_str());
            }
        }
        let base = match home {
            Some(h) => h.to_string(),
            None => ".".to_string(),
        };
        let h = path_join(base.as_str(), ".codex");
        Self::from_home(h.as_str())
    }

    /// The layout of the Codex home that `codex_home` names, or of `.codex`
    /// under the user's home directory.
    pub fn resolve(codex_home: Option<&str>) -> (r: Self)
        ensures
            exists|home: Option<Seq<char>>| #[trigger] resolved(
                opt_str(codex_home),
                home,
                r,
            ),
    {
        let home = home_dir();
        let r = Self::resolve_with_home(codex_home, crate::text::opt_as_str(&home));
        assert(resolved(opt_str(codex_home), opt_string(home), r));
        r
    }
}

} // verus!
