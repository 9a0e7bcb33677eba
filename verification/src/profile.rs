//! Provider profiles: what each one holds, when one is acceptable, and how a
//! list of them changes when one is saved or deleted.
use vstd::prelude::*;

use crate::order::{sort_stable, sorted_stable, SortKey};
use crate::codex_paths::{home_dir, path_join, placed};
use crate::text::{blank, chars_of, is_ascii_alnum, is_blank, lowercase, starts_with, str_to_lowercase};
use crate::RemoteCodexError;

verus! {

/// One remote provider the user can switch Codex to.  The token is not part
/// of it: it is kept in a secret store.
#[derive(Clone, Debug, PartialEq, Eq)]
pub struct CodexProfile {
    pub id: String,
    pub name: String,
    pub provider_name: String,
    pub base_url: String,
    pub model: String,
    pub requires_openai_auth: bool,
    pub keep_chatgpt_login: bool,
    pub codex_home: Option<String>,
    pub created_at: String,
    pub updated_at: String,
}

impl CodexProfile {
    /// A copy of the profile.
    pub fn duplicate(&self) -> (r: Self)
        ensures
            r == *self,
    {
        CodexProfile {
            id: self.id.clone(),
            name: self.name.clone(),
            provider_name: self.provider_name.clone(),
            base_url: self.base_url.clone(),
            model: self.model.clone(),
            requires_openai_auth: self.requires_openai_auth,
            keep_chatgpt_login: self.keep_chatgpt_login,
            codex_home: match &self.codex_home {
                Some(h) => Some(h.clone()),
                None => None,
            },
            created_at: self.created_at.clone(),
            updated_at: self.updated_at.clone(),
        }
    }
}

/// Profiles are listed by name, without regard to case.
impl SortKey for CodexProfile {
    open spec fn key_view(&self) -> Seq<Seq<char>> {
        seq![lowercase(self.name@)]
    }

    fn sort_key(&self) -> (r: Vec<Vec<char>>)
        ensures
            r.deep_view() == self.key_view(),
    {
        let lower = str_to_lowercase(self.name.as_str());
        let mut r: Vec<Vec<char>> = Vec::new();
        r.push(chars_of(lower.as_str()));
        assert(r.deep_view()[0] =~= r@[0]@);
        assert(r.deep_view() =~= self.key_view());
        r
    }
}

/// A character a profile id may hold.
pub open spec fn id_char(c: char) -> bool {
    is_ascii_alnum(c) || c == '_' || c == '-'
}

/// The first rule that `p` breaks, by the text of its message; `None` where
/// `p` may be saved and activated.
pub open spec fn profile_problem(p: CodexProfile) -> Option<Seq<char>> {
    if is_blank(p.id@) {
        Some("profile id is required"@)
    } else if !(forall|i: int| 0 <= i < p.id@.len() ==> #[trigger] id_char(p.id@[i])) {
        Some("profile id may only contain ASCII letters, numbers, '_' and '-'"@)
    } else if is_blank(p.name@) {
        Some("profile name is required"@)
    } else if is_blank(p.provider_name@) {
        Some("provider name is required"@)
    } else if !("https://"@.is_prefix_of(p.base_url@) || "http://127.0.0.1"@.is_prefix_of(
        p.base_url@,
    )) {
        Some("base_url must be https:// or local 127.0.0.1"@)
    } else if is_blank(p.model@) {
        Some("model is required"@)
    } else {
        None
    }
}

/// The error that carries `message`.
pub open spec fn is_message(e: RemoteCodexError, message: Seq<char>) -> bool {
    e matches RemoteCodexError::Message(m) && m@ == message
}

fn message(text: &str) -> (e: RemoteCodexError)
    ensures
        is_message(e, text@),
{
    RemoteCodexError::Message(text.to_string())
}

fn id_chars_ok(id: &str) -> (r: bool)
    ensures
        r == forall|i: int| 0 <= i < id@.len() ==> #[trigger] id_char(id@[i]),
{
    let v = chars_of(id);
    let mut i: usize = 0;
    while i < v.len()
        invariant
            v@ == id@,
            i <= v.len(),
            forall|j: int| 0 <= j < i ==> #[trigger] id_char(id@[j]),
        decreases v.len() - i,
    {
        let c = v[i];
        if !(crate::text::ascii_alnum(c) || c == '_' || c == '-') {
            assert(!id_char(id@[i as int]));
            return false;
        }
        i = i + 1;
    }
    true
}

/// Checks the rules a profile must meet, in order, and reports the first
/// one broken.
pub fn validate_profile(profile: &CodexProfile) -> (r: Result<(), RemoteCodexError>)
    ensures
        match profile_problem(*profile) {
            None => r is Ok,
            Some(m) => r matches Err(e) && is_message(e, m),
        },
{
    if blank(profile.id.as_str()) {
        return Err(message("profile id is required"));
    }
    if !id_chars_ok(profile.id.as_str()) {
        return Err(message("profile id may only contain ASCII letters, numbers, '_' and '-'"));
    }
    if blank(profile.name.as_str()) {
        return Err(message("profile name is required"));
    }
    if blank(profile.provider_name.as_str()) {
        return Err(message("provider name is required"));
    }
    if !(starts_with(profile.base_url.as_str(), "https://") || starts_with(
        profile.base_url.as_str(),
        "http://127.0.0.1",
    )) {
        return Err(message("base_url must be https:// or local 127.0.0.1"));
    }
    if blank(profile.model.as_str()) {
        return Err(message("model is required"));
    }
    Ok(())
}

// ---------------------------------------------------------------------------
// The list of profiles
// ---------------------------------------------------------------------------

/// The first position in `ps` of a profile with id `id`.
pub open spec fn first_with_id(ps: Seq<CodexProfile>, id: Seq<char>) -> Option<int> {
    if exists|i: int| 0 <= i < ps.len() && #[trigger] ps[i].id@ == id {
        Some(
            choose|i: int|
                0 <= i < ps.len() && #[trigger] ps[i].id@ == id && forall|j: int|
                    0 <= j < i ==> ps[j].id@ != id,
        )
    } else {
        None
    }
}

/// `ps` with `q` in place of the first profile of the same id, or with `q`
/// added at the end where there is none.
pub open spec fn upserted(ps: Seq<CodexProfile>, q: CodexProfile) -> Seq<CodexProfile> {
    match first_with_id(ps, q.id@) {
        Some(i) => ps.update(i, q),
        None => ps.push(q),
    }
}

/// `q` is `p` with its blank timestamps set to `now`.
pub open spec fn stamped(q: CodexProfile, p: CodexProfile, now: Seq<char>) -> bool {
    &&& q.id == p.id
    &&& q.name == p.name
    &&& q.provider_name == p.provider_name
    &&& q.base_url == p.base_url
    &&& q.model == p.model
    &&& q.requires_openai_auth == p.requires_openai_auth
    &&& q.keep_chatgpt_login == p.keep_chatgpt_login
    &&& q.codex_home == p.codex_home
    &&& q.created_at@ == (if is_blank(p.created_at@) {
        now
    } else {
        p.created_at@
    })
    &&& q.updated_at@ == (if is_blank(p.updated_at@) {
        now
    } else {
        p.updated_at@
    })
}

fn find_id(ps: &Vec<CodexProfile>, id: &str) -> (r: Option<usize>)
    ensures
        r matches Some(i) ==> first_with_id(ps@, id@) == Some(i as int) && i < ps@.len(),
        r is None ==> first_with_id(ps@, id@) is None,
{
    let mut i: usize = 0;
    while i < ps.len()
        invariant
            i <= ps.len(),
            forall|j: int| 0 <= j < i ==> ps@[j].id@ != id@,
        decreases ps.len() - i,
    {
        if crate::text::same_text(ps[i].id.as_str(), id) {
            let ghost w = choose|w: int|
                0 <= w < ps@.len() && #[trigger] ps@[w].id@ == id@ && forall|j: int|
                    0 <= j < w ==> ps@[j].id@ != id@;
            assert(ps@[i as int].id@ == id@);
            assert(w == i) by {
                if w < i {
                } else if w > i {
                }
            }
            return Some(i);
        }
        i = i + 1;
    }
    None
}

/// The list after saving `profile` at the time `now`: its blank timestamps
/// set to `now`, put in place of the profile with its id (or added), and the
/// list sorted by name without regard to case.
pub fn upsert_profile(profiles: Vec<CodexProfile>, profile: &CodexProfile, now: &str) -> (r: Vec<CodexProfile>)
    ensures
        exists|q: CodexProfile| #[trigger] stamped(q, *profile, now@) && r@ == sorted_stable(upserted(profiles@, q), false),
{
    let mut ps = profiles;
    let mut q = profile.duplicate();
    if blank(q.created_at.as_str()) {
        q.created_at = now.to_string();
    }
    if blank(q.updated_at.as_str()) {
        q.updated_at = now.to_string();
    }
    assert(stamped(q, *profile, now@));
    let ghost before = ps@;
    let ghost gq = q;
    let found = find_id(&ps, q.id.as_str());
    match found {
        Some(i) => {
            ps.set(i, q);
            assert(ps@ =~= upserted(before, gq));
        },
        None => {
            ps.push(q);
            assert(ps@ =~= upserted(before, gq));
        },
    }
    sort_stable(ps, false)
}

/// No two profiles of `ps` share an id.
pub open spec fn distinct_ids(ps: Seq<CodexProfile>) -> bool {
    forall|i: int, j: int| 0 <= i < j < ps.len() ==> (#[trigger] ps[i]).id@ != (#[trigger] ps[j]).id@
}

proof fn lemma_distinct_ids_after_insert(s: Seq<CodexProfile>, x: CodexProfile)
    requires
        distinct_ids(s),
        forall|i: int| 0 <= i < s.len() ==> (#[trigger] s[i]).id@ != x.id@,
    ensures
        distinct_ids(crate::order::insert_sorted(s, x, false)),
    decreases s.len(),
{
    broadcast use vstd::seq_lib::group_to_multiset_ensures;
    if s.len() > 0 && crate::order::goes_before(x, s.last(), false) {
        let d = s.drop_last();
        lemma_distinct_ids_after_insert(d, x);
        crate::order::lemma_insert_sorted_contents(d, x, false);
        let ins = crate::order::insert_sorted(d, x, false);
        let r = ins.push(s.last());
        assert forall|i: int, j: int| 0 <= i < j < r.len() implies (#[trigger] r[i]).id@ != (#[trigger] r[j]).id@ by {
            if j == r.len() - 1 {
                let y = ins[i];
                assert(ins.to_multiset().count(y) > 0);
                if y != x {
                    assert(d.to_multiset().count(y) > 0);
                    let k = choose|k: int| 0 <= k < d.len() && d[k] == y;
                    assert(s[k] == y);
                }
            } else {
                assert(r[i] == ins[i] && r[j] == ins[j]);
            }
        }
    } else if s.len() > 0 {
        let r = s.push(x);
        assert forall|i: int, j: int| 0 <= i < j < r.len() implies (#[trigger] r[i]).id@ != (#[trigger] r[j]).id@ by {
            if j < s.len() {
                assert(r[i] == s[i] && r[j] == s[j]);
            }
        }
    }
}

proof fn lemma_distinct_ids_after_sort(s: Seq<CodexProfile>)
    requires
        distinct_ids(s),
    ensures
        distinct_ids(sorted_stable(s, false)),
    decreases s.len(),
{
    broadcast use vstd::seq_lib::group_to_multiset_ensures;
    if s.len() > 0 {
        let d = s.drop_last();
        assert forall|i: int, j: int| 0 <= i < j < d.len() implies (#[trigger] d[i]).id@ != (#[trigger] d[j]).id@ by {
            assert(d[i] == s[i] && d[j] == s[j]);
        }
        lemma_distinct_ids_after_sort(d);
        let sd = sorted_stable(d, false);
        crate::order::law_sorted_stable_permutes(d, false);
        assert forall|i: int| 0 <= i < sd.len() implies (#[trigger] sd[i]).id@ != s.last().id@ by {
            let y = sd[i];
            assert(sd.to_multiset().count(y) > 0);
            assert(d.to_multiset().count(y) > 0);
            let k = choose|k: int| 0 <= k < d.len() && d[k] == y;
            assert(s[k] == y);
        }
        lemma_distinct_ids_after_insert(sd, s.last());
    }
}

/// Saving a profile keeps profile ids unique: a profile with the id of one
/// already kept takes its place instead of being added.
pub proof fn law_save_profile_keeps_ids_unique(profiles: Seq<CodexProfile>, q: CodexProfile)
    requires
        distinct_ids(profiles),
    ensures
        distinct_ids(sorted_stable(upserted(profiles, q), false)),
        (exists|i: int| 0 <= i < profiles.len() && (#[trigger] profiles[i]).id@ == q.id@) ==> upserted(
            profiles,
            q,
        ).len() == profiles.len(),
{
    let u = upserted(profiles, q);
    match first_with_id(profiles, q.id@) {
        Some(i) => {
            assert forall|a: int, b: int| 0 <= a < b < u.len() implies (#[trigger] u[a]).id@ != (#[trigger] u[b]).id@ by {
                if a == i {
                    assert(u[b] == profiles[b]);
                } else if b == i {
                    assert(u[a] == profiles[a]);
                } else {
                    assert(u[a] == profiles[a] && u[b] == profiles[b]);
                }
            }
        },
        None => {
            assert forall|a: int, b: int| 0 <= a < b < u.len() implies (#[trigger] u[a]).id@ != (#[trigger] u[b]).id@ by {
                if b == profiles.len() {
                    assert(u[a] == profiles[a]);
                } else {
                    assert(u[a] == profiles[a] && u[b] == profiles[b]);
                }
            }
        },
    }
    lemma_distinct_ids_after_sort(u);
}

/// `ps` without the profiles of id `id`, the others in their order.
pub open spec fn without_id(ps: Seq<CodexProfile>, id: Seq<char>) -> Seq<CodexProfile>
    decreases ps.len(),
{
    if ps.len() == 0 {
        ps
    } else if ps.last().id@ == id {
        without_id(ps.drop_last(), id)
    } else {
        without_id(ps.drop_last(), id).push(ps.last())
    }
}

pub proof fn lemma_without_id_len(ps: Seq<CodexProfile>, id: Seq<char>)
    ensures
        without_id(ps, id).len() <= ps.len(),
        without_id(ps, id).len() == ps.len() <==> forall|i: int| 0 <= i < ps.len() ==> #[trigger] ps[i].id@ != id,
    decreases ps.len(),
{
    if ps.len() > 0 {
        lemma_without_id_len(ps.drop_last(), id);
        if ps.last().id@ == id {
            assert(!(forall|i: int| 0 <= i < ps.len() ==> #[trigger] ps[i].id@ != id)) by {
                assert(ps[ps.len() - 1].id@ == id);
            }
        } else {
            let d = ps.drop_last();
            if forall|i: int| 0 <= i < d.len() ==> #[trigger] d[i].id@ != id {
                assert forall|i: int| 0 <= i < ps.len() implies #[trigger] ps[i].id@ != id by {
                    if i < d.len() {
                        assert(d[i] == ps[i]);
                    }
                }
            }
            if forall|i: int| 0 <= i < ps.len() ==> #[trigger] ps[i].id@ != id {
                assert forall|i: int| 0 <= i < d.len() implies #[trigger] d[i].id@ != id by {
                    assert(d[i] == ps[i]);
                }
            }
        }
    }
}

/// The list without the profiles of id `id`, and whether any went.
pub fn remove_profile(profiles: Vec<CodexProfile>, id: &str) -> (r: (Vec<CodexProfile>, bool))
    ensures
        r.0@ == without_id(profiles@, id@),
        r.1 == exists|i: int| 0 <= i < profiles@.len() && #[trigger] profiles@[i].id@ == id@,
{
    let ghost input = profiles@;
    let mut kept: Vec<CodexProfile> = Vec::new();
    let mut rest = profiles;
    let total = rest.len();
    let mut n: usize = 0;
    while rest.len() > 0
        invariant
            n + rest@.len() == input.len(),
            input.len() == total,
            rest@ == input.skip(n as int),
            kept@ == without_id(input.take(n as int), id@),
        decreases rest@.len(),
    {
        let p = rest.remove(0);
        let ghost gp = p;
        let ghost n0 = n as int;
        proof {
            assert(input.skip(n0 + 1) =~= input.skip(n0).drop_first());
            let s = input.take(n0 + 1);
            assert(s.drop_last() =~= input.take(n0));
            assert(s.last() == gp);
        }
        if !crate::text::same_text(p.id.as_str(), id) {
            kept.push(p);
        }
        n = n + 1;
    }
    assert(input.take(n as int) =~= input);
    proof {
        lemma_without_id_len(input, id@);
    }
    let removed = kept.len() < total;
    (kept, removed)
}

/// A time as the clock gives it: RFC 3339 in UTC, so a text that ends with
/// `Z`.
pub open spec fn clock_time(now: Seq<char>) -> bool {
    now.len() > 0 && now.last() == 'Z'
}

/// `chrono::Utc::now` written as RFC 3339 to the second, with `Z` for the
/// UTC offset (`to_rfc3339_opts` with `use_z`).  Which time it is depends on
/// the clock; only that the text ends with `Z` is stated.
#[verifier::external_body]
pub(crate) fn utc_now_rfc3339() -> (res: String)
    ensures
        clock_time(res@),
{
    chrono::Utc::now().to_rfc3339_opts(chrono::SecondsFormat::Secs, true)
}

/// Saves `profile` into `profiles` at the current time, after checking it.
pub fn save_profile_into(profiles: Vec<CodexProfile>, profile: &CodexProfile) -> (r: Result<Vec<CodexProfile>, RemoteCodexError>)
    ensures
        match profile_problem(*profile) {
            Some(m) => r matches Err(e) && is_message(e, m),
            None => r matches Ok(list) && exists|now: Seq<char>, q: CodexProfile|
                #[trigger] stamped(q, *profile, now) && clock_time(now) && list@ == sorted_stable(
                    upserted(profiles@, q),
                    false,
                ),
        },
{
    validate_profile(profile)?;
    let now = utc_now_rfc3339();
    let list = upsert_profile(profiles, profile, now.as_str());
    assert(clock_time(now@));
    Ok(list)
}

/// A saved profile always carries its times: whatever times the profile came
/// with, once saved at a time the clock gave, it was created and updated at a
/// time that is not blank, and a profile that came without times is created
/// and updated at that same clock time.
pub proof fn law_saved_profile_is_stamped(q: CodexProfile, p: CodexProfile, now: Seq<char>)
    requires
        stamped(q, p, now),
        clock_time(now),
    ensures
        !is_blank(q.created_at@),
        !is_blank(q.updated_at@),
        is_blank(p.created_at@) ==> q.created_at@ == now && q.created_at@.last() == 'Z',
        is_blank(p.updated_at@) ==> q.updated_at@ == now && q.updated_at@.last() == 'Z',
{
    crate::text::lemma_not_blank_by_last(now);
}

// ---------------------------------------------------------------------------
// Where profiles are kept
// ---------------------------------------------------------------------------

/// `dirs::config_dir`, as text.  It depends on the environment: nothing is
/// stated of it.
#[verifier::external_body]
pub(crate) fn config_dir() -> Option<String> {
    dirs::config_dir().map(|p| p.to_string_lossy().into_owned())
}

/// The directory this user's stores go under, given the configuration
/// directory and the home directory as the environment reports them: the
/// configuration directory where there is one, else the home directory,
/// else `.`.
pub fn store_base(config: Option<String>, home: Option<String>) -> (r: String)
    ensures
        config matches Some(d) ==> r == d,
        config is None ==> (home matches Some(h) ==> r == h),
        (config is None && home is None) ==> r@ == "."@,
{
    match config {
        Some(d) => d,
        None => match home {
            Some(h) => h,
            None => ".".to_string(),
        },
    }
}

/// The directory under which profiles are kept.
#[derive(Clone, Debug)]
pub struct ProfileStore {
    pub config_dir: String,
}

impl ProfileStore {
    /// The store of this user: `RemoteCodexAPI` under the configuration
    /// directory, or under the home directory, or under `.`.
    pub fn default_store() -> (r: Self)
        ensures
            exists|base: Seq<char>| #[trigger] placed(base, "RemoteCodexAPI"@, r.config_dir@),
    {
        let base = crate::profile::store_base(config_dir(), home_dir());
        let r = Self::in_dir(base.as_str());
        assert(placed(base@, "RemoteCodexAPI"@, r.config_dir@));
        r
    }

    /// The store kept in `RemoteCodexAPI` under the directory `base`.
    pub fn in_dir(base: &str) -> (r: Self)
        ensures
            placed(base@, "RemoteCodexAPI"@, r.config_dir@),
    {
        proof {
            reveal_strlit("RemoteCodexAPI");
        }
        Self::new(path_join(base, "RemoteCodexAPI"))
    }

    pub fn new(config_dir: String) -> (r: Self)
        ensures
            r.config_dir == config_dir,
    {
        ProfileStore { config_dir }
    }

    /// The file that holds the profiles.
    pub fn profiles_path(&self) -> (r: String)
        ensures
            placed(self.config_dir@, "profiles.json"@, r@),
    {
        proof {
            reveal_strlit("profiles.json");
        }
        path_join(self.config_dir.as_str(), "profiles.json")
    }
}

} // verus!
