//! The decisions behind the panel's commands: which profiles have a token,
//! which token an activation uses, how a saved root is labelled, which saved
//! roots a history sync takes in, and which install locations are kept.
use vstd::prelude::*;

use crate::history::HistorySyncOptions;
use crate::history_roots::CustomHistoryRoot;
use crate::profile::{first_with_id, is_message, CodexProfile};
use crate::secrets::SecretStore;
use crate::text::{blank, concat, is_blank, lowercase, opt_str, opt_string, str_to_lowercase, str_trim, trim};
use crate::RemoteCodexError;

verus! {

/// A profile as the panel lists it: with whether a token is kept for it.
#[derive(Clone, Debug)]
pub struct StoredProfile {
    pub profile: CodexProfile,
    pub token_ready: bool,
}

/// A token is ready when one is kept and it is not blank.
pub open spec fn token_usable(token: Option<Seq<char>>) -> bool {
    match token {
        Some(t) => !is_blank(t),
        None => false,
    }
}

/// `profile` listed with the token the store holds for it, if any.
pub fn stored_profile(profile: CodexProfile, token: Option<String>) -> (r: StoredProfile)
    ensures
        r.profile == profile,
        r.token_ready == token_usable(opt_string(token)),
{
    let token_ready = match token {
        Some(t) => !blank(t.as_str()),
        None => false,
    };
    StoredProfile { profile, token_ready }
}

/// `ready` is what `stored_profile` makes of an answer that `secrets` may
/// give for the token of `id`.
pub open spec fn ready_from<S: SecretStore>(secrets: &S, id: Seq<char>, ready: bool) -> bool {
    exists|t: Option<String>|
        #[trigger] secrets.answers(id, Ok(t)) && ready == token_usable(opt_string(t))
}

/// Lists `profiles` in order, each with whether `secrets` keeps a usable
/// token for it: each profile is listed as `stored_profile` reads the answer
/// the store gave for its id, and the first failure the store answers is
/// returned.  With no profile the store is not asked, and the empty list is
/// returned.
pub fn hydrate_profiles<S: SecretStore>(profiles: Vec<CodexProfile>, secrets: &S) -> (r: Result<
    Vec<StoredProfile>,
    RemoteCodexError,
>)
    ensures
        r matches Ok(list) ==> list@.len() == profiles@.len() && forall|i: int|
            0 <= i < list@.len() ==> (#[trigger] list@[i]).profile == profiles@[i] && ready_from(
                secrets,
                profiles@[i].id@,
                list@[i].token_ready,
            ),
        r matches Err(e) ==> exists|i: int|
            0 <= i < profiles@.len() && #[trigger] secrets.answers(profiles@[i].id@, Err(e)),
        profiles@.len() == 0 ==> (r matches Ok(list) && list@.len() == 0),
{
    let mut out: Vec<StoredProfile> = Vec::new();
    let mut i: usize = 0;
    while i < profiles.len()
        invariant
            i <= profiles@.len(),
            out@.len() == i,
            forall|j: int|
                0 <= j < i ==> (#[trigger] out@[j]).profile == profiles@[j] && ready_from(
                    secrets,
                    profiles@[j].id@,
                    out@[j].token_ready,
                ),
        decreases profiles@.len() - i,
    {
        let answer = secrets.get_token(profiles[i].id.as_str());
        let token = match answer {
            Ok(t) => t,
            Err(e) => {
                assert(secrets.answers(profiles@[i as int].id@, Err(e)));
                return Err(e);
            },
        };
        let ghost held: Option<String> = token;
        let entry = stored_profile(profiles[i].duplicate(), token);
        assert(secrets.answers(profiles@[i as int].id@, Ok(held)));
        assert(ready_from(secrets, profiles@[i as int].id@, entry.token_ready));
        out.push(entry);
        i = i + 1;
    }
    Ok(out)
}

/// A token typed in by the user, trimmed; `None` where it is blank or
/// absent.
pub open spec fn supplied(token: Option<Seq<char>>) -> Option<Seq<char>> {
    match token {
        Some(t) => if trim(t).len() > 0 {
            Some(trim(t))
        } else {
            None
        },
        None => None,
    }
}

/// The token the user supplied with a command, trimmed, if it is not blank.
pub fn supplied_token(token: Option<&str>) -> (r: Option<String>)
    ensures
        opt_string(r) == supplied(opt_str(token)),
{
    match token {
        Some(t) => {
            let trimmed = str_trim(t);
            if trimmed.unicode_len() > 0 {
                Some(trimmed.to_string())
            } else {
                None
            }
        },
        None => None,
    }
}

/// The token an activation uses when none was supplied: the one kept for
/// the profile, unless it is missing or blank.
pub fn stored_token(stored: Option<String>, profile_name: &str) -> (r: Result<String, RemoteCodexError>)
    ensures
        match opt_string(stored) {
            Some(t) => if !is_blank(t) {
                r matches Ok(s) && s@ == t
            } else {
                r matches Err(e) && is_message(e, "missing provider token for "@ + profile_name@)
            },
            None => r matches Err(e) && is_message(e, "missing provider token for "@ + profile_name@),
        },
{
    match stored {
        Some(t) => if !blank(t.as_str()) {
            return Ok(t);
        },
        None => {},
    }
    Err(RemoteCodexError::Message(concat("missing provider token for ", profile_name)))
}

/// One step of activating a profile.
#[derive(Clone, Copy, Debug, PartialEq, Eq, Structural)]
pub enum ActivationStep {
    /// Keep the token the user supplied for the profile.
    KeepToken,
    /// Read the token kept for the profile (it must not be blank).
    ReadToken,
    /// Back up the Codex files.
    Backup,
    /// Point Codex's login at ChatGPT.
    ApplyAuth,
    /// Point Codex's configuration at the profile's provider.
    ApplyConfig,
    /// Read what Codex will run with.
    ReadStatus,
    /// Repair the history of the Codex home.
    SyncHistory,
    /// Start the Codex app.
    OpenCodex,
    /// Stop the Codex app and start it again.
    RestartCodex,
}

/// The steps of an activation, in order: keep the supplied token, or read
/// the kept one; back up; point login and configuration at the provider;
/// read the status; repair the history where asked; then start Codex,
/// restarting it where asked.
pub open spec fn activation_plan(token_supplied: bool, sync_history: bool, restart_codex: bool) -> Seq<
    ActivationStep,
> {
    seq![if token_supplied { ActivationStep::KeepToken } else { ActivationStep::ReadToken }] + seq![
        ActivationStep::Backup,
        ActivationStep::ApplyAuth,
        ActivationStep::ApplyConfig,
        ActivationStep::ReadStatus,
    ] + (if sync_history {
        seq![ActivationStep::SyncHistory]
    } else {
        Seq::empty()
    }) + seq![if restart_codex { ActivationStep::RestartCodex } else { ActivationStep::OpenCodex }]
}

/// The steps of activating a profile, given the token typed in (if any)
/// and whether the history is to be repaired and Codex restarted.  Each
/// step but the last ends the activation where it fails; a failure to
/// start Codex is only reported.
pub fn activation_steps(token: Option<&str>, sync_history: bool, restart_codex: bool) -> (r: Vec<ActivationStep>)
    ensures
        r@ == activation_plan(supplied(opt_str(token)) is Some, sync_history, restart_codex),
{
    let mut steps: Vec<ActivationStep> = Vec::new();
    match supplied_token(token) {
        Some(_) => steps.push(ActivationStep::KeepToken),
        None => steps.push(ActivationStep::ReadToken),
    }
    steps.push(ActivationStep::Backup);
    steps.push(ActivationStep::ApplyAuth);
    steps.push(ActivationStep::ApplyConfig);
    steps.push(ActivationStep::ReadStatus);
    if sync_history {
        steps.push(ActivationStep::SyncHistory);
    }
    if restart_codex {
        steps.push(ActivationStep::RestartCodex);
    } else {
        steps.push(ActivationStep::OpenCodex);
    }
    assert(steps@ =~= activation_plan(supplied(opt_str(token)) is Some, sync_history, restart_codex));
    steps
}

/// The profile with id `id`: the first one of `profiles` that has it.
pub fn profile_by_id(profiles: &Vec<CodexProfile>, id: &str) -> (r: Result<CodexProfile, RemoteCodexError>)
    ensures
        match first_with_id(profiles@, id@) {
            Some(i) => r matches Ok(p) && p == profiles@[i],
            None => r matches Err(e) && is_message(e, "profile not found: "@ + id@),
        },
{
    let mut i: usize = 0;
    while i < profiles.len()
        invariant
            i <= profiles@.len(),
            forall|j: int| 0 <= j < i ==> profiles@[j].id@ != id@,
        decreases profiles@.len() - i,
    {
        if crate::text::same_text(profiles[i].id.as_str(), id) {
            proof {
                let w = choose|w: int|
                    0 <= w < profiles@.len() && #[trigger] profiles@[w].id@ == id@ && forall|j: int|
                        0 <= j < w ==> profiles@[j].id@ != id@;
                assert(profiles@[i as int].id@ == id@);
                assert(w == i) by {
                    if w < i {
                    } else if w > i {
                    }
                }
            }
            return Ok(profiles[i].duplicate());
        }
        i = i + 1;
    }
    Err(RemoteCodexError::Message(concat("profile not found: ", id)))
}

/// The label of a root the user saves: the label typed in, trimmed, or the
/// trimmed path where the label is blank or absent.
pub open spec fn label_for(label: Option<Seq<char>>, path: Seq<char>) -> Seq<char> {
    match label {
        Some(l) => if trim(l).len() > 0 {
            trim(l)
        } else {
            trim(path)
        },
        None => trim(path),
    }
}

/// The label a saved root gets.
pub fn root_label(label: Option<&str>, path: &str) -> (r: String)
    ensures
        r@ == label_for(opt_str(label), path@),
{
    match label {
        Some(l) => {
            let trimmed = str_trim(l);
            if trimmed.unicode_len() > 0 {
                return trimmed.to_string();
            }
        },
        None => {},
    }
    str_trim(path).to_string()
}

/// The options of a history sync: the paths of the saved roots, in order.
pub fn history_sync_options(roots: &Vec<CustomHistoryRoot>) -> (r: HistorySyncOptions)
    ensures
        r.custom_workspace_roots@.len() == roots@.len(),
        forall|i: int|
            0 <= i < roots@.len() ==> #[trigger] r.custom_workspace_roots@[i] == roots@[i].path,
{
    let mut paths: Vec<String> = Vec::new();
    let mut i: usize = 0;
    while i < roots.len()
        invariant
            i <= roots@.len(),
            paths@.len() == i,
            forall|j: int| 0 <= j < i ==> #[trigger] paths@[j] == roots@[j].path,
        decreases roots@.len() - i,
    {
        paths.push(roots[i].path.clone());
        i = i + 1;
    }
    HistorySyncOptions { custom_workspace_roots: paths }
}

/// `ps` with each path after the first of the same text, compared without
/// regard to case, left out.
pub open spec fn distinct_paths(ps: Seq<String>) -> Seq<String>
    decreases ps.len(),
{
    if ps.len() == 0 {
        Seq::empty()
    } else {
        let before = distinct_paths(ps.drop_last());
        if exists|j: int| 0 <= j < before.len() && lowercase(#[trigger] before[j]@) == lowercase(ps.last()@) {
            before
        } else {
            before.push(ps.last())
        }
    }
}

/// Keeps the first of each path, compared without regard to case.
pub fn dedupe_paths(paths: Vec<String>) -> (r: Vec<String>)
    ensures
        r@ == distinct_paths(paths@),
{
    let mut out: Vec<String> = Vec::new();
    let mut keys: Vec<String> = Vec::new();
    let mut i: usize = 0;
    while i < paths.len()
        invariant
            i <= paths@.len(),
            out@ == distinct_paths(paths@.take(i as int)),
            keys@.len() == out@.len(),
            forall|j: int| 0 <= j < keys@.len() ==> #[trigger] keys@[j]@ == lowercase(out@[j]@),
        decreases paths@.len() - i,
    {
        assert(paths@.take(i + 1).drop_last() =~= paths@.take(i as int));
        let key = str_to_lowercase(paths[i].as_str());
        let mut k: usize = 0;
        let mut seen = false;
        while k < keys.len() && !seen
            invariant
                k <= keys@.len(),
                !seen ==> forall|j: int| 0 <= j < k ==> keys@[j]@ != key@,
                seen ==> exists|j: int| 0 <= j < keys@.len() && keys@[j]@ == key@,
            decreases keys@.len() - k + (if seen { 0int } else { 1int }),
        {
            if crate::text::same_text(keys[k].as_str(), key.as_str()) {
                seen = true;
            } else {
                k = k + 1;
            }
        }
        proof {
            if seen {
                let j = choose|j: int| 0 <= j < keys@.len() && keys@[j]@ == key@;
                assert(lowercase(out@[j]@) == lowercase(paths@[i as int]@));
            } else {
                assert forall|j: int| 0 <= j < out@.len() implies lowercase(#[trigger] out@[j]@) != lowercase(paths@[i as int]@) by {
                    assert(keys@[j]@ == lowercase(out@[j]@));
                }
            }
        }
        if !seen {
            out.push(paths[i].clone());
            keys.push(key);
        }
        i = i + 1;
    }
    assert(paths@.take(paths@.len() as int) =~= paths@);
    out
}

} // verus!
