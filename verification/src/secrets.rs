//! Where provider tokens are kept, apart from the profiles.
use vstd::prelude::*;

use crate::RemoteCodexError;

verus! {

/// A store of one token per profile id.
pub trait SecretStore {
    /// `r` is an answer the store may give when asked for the token of
    /// `profile_id`.
    spec fn answers(&self, profile_id: Seq<char>, r: Result<Option<String>, RemoteCodexError>) -> bool;

    fn set_token(&mut self, profile_id: &str, token: &str) -> Result<(), RemoteCodexError>;

    fn get_token(&self, profile_id: &str) -> (r: Result<Option<String>, RemoteCodexError>)
        ensures
            self.answers(profile_id@, r),
    ;

    fn delete_token(&mut self, profile_id: &str) -> Result<(), RemoteCodexError>;
}

/// Tokens kept in memory (for tests and previews).
pub struct InMemorySecretStore {
    values: Vec<(String, String)>,
}

/// The tokens of a list of (id, token) pairs: a later pair for an id wins.
pub open spec fn token_map(s: Seq<(String, String)>) -> Map<Seq<char>, Seq<char>>
    decreases s.len(),
{
    if s.len() == 0 {
        Map::empty()
    } else {
        token_map(s.drop_last()).insert(s.last().0@, s.last().1@)
    }
}

/// `s` without the pairs of id `id`.
pub open spec fn without_key(s: Seq<(String, String)>, id: Seq<char>) -> Seq<(String, String)>
    decreases s.len(),
{
    if s.len() == 0 {
        s
    } else if s.last().0@ == id {
        without_key(s.drop_last(), id)
    } else {
        without_key(s.drop_last(), id).push(s.last())
    }
}

proof fn lemma_without_key(s: Seq<(String, String)>, id: Seq<char>)
    ensures
        token_map(without_key(s, id)) == token_map(s).remove(id),
    decreases s.len(),
{
    if s.len() > 0 {
        lemma_without_key(s.drop_last(), id);
        if s.last().0@ == id {
            assert(token_map(s).remove(id) =~= token_map(s.drop_last()).remove(id));
        } else {
            let w = without_key(s.drop_last(), id);
            assert(w.push(s.last()).drop_last() =~= w);
            assert(token_map(without_key(s, id)) =~= token_map(s).remove(id));
        }
    }
}

impl InMemorySecretStore {
    /// The tokens held, by profile id.
    pub closed spec fn tokens(&self) -> Map<Seq<char>, Seq<char>> {
        token_map(self.values@)
    }

    /// A store with no token.
    pub fn new() -> (r: Self)
        ensures
            r.tokens() == Map::<Seq<char>, Seq<char>>::empty(),
    {
        InMemorySecretStore { values: Vec::new() }
    }

    fn without(values: &Vec<(String, String)>, id: &str) -> (r: Vec<(String, String)>)
        ensures
            r@ == without_key(values@, id@),
    {
        let mut out: Vec<(String, String)> = Vec::new();
        let mut i: usize = 0;
        while i < values.len()
            invariant
                i <= values.len(),
                out@ == without_key(values@.take(i as int), id@),
            decreases values.len() - i,
        {
            assert(values@.take(i + 1).drop_last() =~= values@.take(i as int));
            let pair = &values[i];
            if !crate::text::same_text(pair.0.as_str(), id) {
                out.push((pair.0.clone(), pair.1.clone()));
            }
            i = i + 1;
        }
        assert(values@.take(values@.len() as int) =~= values@);
        out
    }
}

/// A token read back after it was kept is the token kept; keeping or
/// forgetting the token of one profile leaves the others as they were, and
/// a forgotten token reads back as none.  (`set_token` makes the store's
/// tokens `tokens().insert(id, token)`, `delete_token` makes them
/// `tokens().remove(id)`, and `get_token` reads `tokens()`.)
pub proof fn law_tokens_read_back(store: InMemorySecretStore, id: Seq<char>, token: Seq<char>, other: Seq<char>)
    requires
        other != id,
    ensures
        store.tokens().insert(id, token).dom().contains(id),
        store.tokens().insert(id, token)[id] == token,
        !store.tokens().remove(id).dom().contains(id),
        store.tokens().insert(id, token).dom().contains(other) == store.tokens().dom().contains(other),
        store.tokens().remove(id).dom().contains(other) == store.tokens().dom().contains(other),
        store.tokens().dom().contains(other) ==> store.tokens().insert(id, token)[other] == store.tokens()[other]
            && store.tokens().remove(id)[other] == store.tokens()[other],
{
}

impl Default for InMemorySecretStore {
    fn default() -> (r: Self)
        ensures
            r.tokens() == Map::<Seq<char>, Seq<char>>::empty(),
    {
        InMemorySecretStore::new()
    }
}

impl SecretStore for InMemorySecretStore {
    /// The one answer: the token held for the id, or none.
    open spec fn answers(&self, profile_id: Seq<char>, r: Result<Option<String>, RemoteCodexError>) -> bool {
        match r {
            Ok(Some(s)) => self.tokens().dom().contains(profile_id) && self.tokens()[profile_id] == s@,
            Ok(None) => !self.tokens().dom().contains(profile_id),
            Err(_) => false,
        }
    }

    /// Keeps `token` for `profile_id`, in place of any earlier one.
    fn set_token(&mut self, profile_id: &str, token: &str) -> (r: Result<(), RemoteCodexError>)
        ensures
            r is Ok,
            final(self).tokens() == old(self).tokens().insert(profile_id@, token@),
    {
        let mut values = Self::without(&self.values, profile_id);
        proof {
            lemma_without_key(self.values@, profile_id@);
        }
        values.push((profile_id.to_string(), token.to_string()));
        proof {
            assert(values@.drop_last() =~= without_key(self.values@, profile_id@));
            assert(token_map(values@) =~= token_map(self.values@).insert(profile_id@, token@));
        }
        self.values = values;
        Ok(())
    }

    /// The token kept for `profile_id`, if any.
    fn get_token(&self, profile_id: &str) -> (r: Result<Option<String>, RemoteCodexError>)
        ensures
            r matches Ok(t) && (match t {
                Some(s) => self.tokens().dom().contains(profile_id@) && self.tokens()[profile_id@] == s@,
                None => !self.tokens().dom().contains(profile_id@),
            }),
    {
        let mut i = self.values.len();
        assert(self.values@.take(self.values@.len() as int) =~= self.values@);
        while i > 0
            invariant
                i <= self.values@.len(),
                token_map(self.values@).dom().contains(profile_id@) == token_map(self.values@.take(i as int)).dom().contains(profile_id@),
                token_map(self.values@).dom().contains(profile_id@) ==> token_map(self.values@)[profile_id@] == token_map(self.values@.take(i as int))[profile_id@],
            decreases i,
        {
            let ghost s = self.values@.take(i as int);
            assert(s.drop_last() =~= self.values@.take(i - 1));
            if crate::text::same_text(self.values[i - 1].0.as_str(), profile_id) {
                return Ok(Some(self.values[i - 1].1.clone()));
            }
            i = i - 1;
        }
        assert(self.values@.take(self.values@.len() as int) =~= self.values@);
        assert(token_map(self.values@.take(0)) =~= Map::<Seq<char>, Seq<char>>::empty());
        Ok(None)
    }

    /// Forgets the token of `profile_id`.
    fn delete_token(&mut self, profile_id: &str) -> (r: Result<(), RemoteCodexError>)
        ensures
            r is Ok,
            final(self).tokens() == old(self).tokens().remove(profile_id@),
    {
        let values = Self::without(&self.values, profile_id);
        proof {
            lemma_without_key(self.values@, profile_id@);
        }
        self.values = values;
        Ok(())
    }
}

/// The service name under which tokens are kept in the system's credential
/// store.
pub const KEYRING_SERVICE: &'static str = "Remote Codex API";

#[verifier::external_type_specification]
#[verifier::external_body]
pub struct ExKeyringEntry(keyring::Entry);

#[verifier::external_type_specification]
#[verifier::external_body]
pub struct ExKeyringError(keyring::Error);

/// `keyring::Entry::new`: the entry of `service` and `user` in the system's
/// credential store.  Whether it can be made depends on the platform's
/// store, so nothing is stated of the outcome.
#[verifier::external_body]
fn keyring_entry(service: &str, user: &str) -> (res: Result<keyring::Entry, keyring::Error>) {
    keyring::Entry::new(service, user)
}

/// `keyring::Entry::set_password`; the outcome depends on the store.
#[verifier::external_body]
fn entry_set_password(entry: &keyring::Entry, password: &str) -> (res: Result<(), keyring::Error>) {
    entry.set_password(password)
}

/// `keyring::Entry::get_password`; the outcome depends on the store.
#[verifier::external_body]
fn entry_get_password(entry: &keyring::Entry) -> (res: Result<String, keyring::Error>) {
    entry.get_password()
}

/// `keyring::Entry::delete_credential`; the outcome depends on the store.
#[verifier::external_body]
fn entry_delete_credential(entry: &keyring::Entry) -> (res: Result<(), keyring::Error>) {
    entry.delete_credential()
}

/// Tells `keyring::Error::NoEntry` (no credential for the entry) apart
/// from the other variants.  `keyring::Error` is opaque here, so which
/// variant `e` is goes unstated.
#[verifier::external_body]
fn is_no_entry(e: &keyring::Error) -> (res: bool) {
    match e {
        keyring::Error::NoEntry => true,
        _ => false,
    }
}

/// The `Display` text of a `keyring::Error`; it is not stated.
#[verifier::external_body]
fn keyring_error_text(e: &keyring::Error) -> (res: String) {
    e.to_string()
}

fn keyring_failure(e: &keyring::Error) -> (r: RemoteCodexError)
    ensures
        r is Keyring,
{
    RemoteCodexError::Keyring(keyring_error_text(e))
}

/// Tokens kept in the system's credential store, one entry per profile id
/// under the service `KEYRING_SERVICE`.
#[derive(Clone, Default)]
pub struct KeyringSecretStore;

impl KeyringSecretStore {
    /// What `get_token` reports for the outcome of reading a profile's
    /// credential: the password the store handed back, unchanged; none where
    /// the store holds no entry for the profile; else the store's failure.
    /// A password that was read is never reported as missing, and a failed
    /// read never reports a token.
    pub fn token_from_lookup(lookup: Result<String, keyring::Error>) -> (r: Result<Option<String>, RemoteCodexError>)
        ensures
            lookup matches Ok(p) ==> (r matches Ok(Some(t)) && t == p),
            lookup is Err ==> (r matches Ok(None) || r matches Err(RemoteCodexError::Keyring(_))),
    {
        match lookup {
            Ok(token) => Ok(Some(token)),
            Err(e) => if is_no_entry(&e) {
                Ok(None)
            } else {
                Err(keyring_failure(&e))
            },
        }
    }

    fn entry(profile_id: &str) -> (r: Result<keyring::Entry, RemoteCodexError>)
        ensures
            r matches Err(e) ==> e is Keyring,
    {
        match keyring_entry(KEYRING_SERVICE, profile_id) {
            Ok(entry) => Ok(entry),
            Err(e) => Err(keyring_failure(&e)),
        }
    }
}

impl SecretStore for KeyringSecretStore {
    /// What the credential store holds is not modelled: any token or none
    /// may come back, and a failure is a keyring error.
    open spec fn answers(&self, profile_id: Seq<char>, r: Result<Option<String>, RemoteCodexError>) -> bool {
        r matches Err(e) ==> e is Keyring
    }

    /// Keeps `token` for `profile_id` in the credential store.
    fn set_token(&mut self, profile_id: &str, token: &str) -> (r: Result<(), RemoteCodexError>)
        ensures
            r matches Err(e) ==> e is Keyring,
    {
        let entry = Self::entry(profile_id)?;
        match entry_set_password(&entry, token) {
            Ok(()) => Ok(()),
            Err(e) => Err(keyring_failure(&e)),
        }
    }

    /// The token kept for `profile_id`: `None` where the store holds no
    /// entry for it.
    fn get_token(&self, profile_id: &str) -> (r: Result<Option<String>, RemoteCodexError>)
        ensures
            r matches Err(e) ==> e is Keyring,
    {
        let entry = Self::entry(profile_id)?;
        Self::token_from_lookup(entry_get_password(&entry))
    }

    /// Forgets the token of `profile_id`; a missing entry is no error.
    fn delete_token(&mut self, profile_id: &str) -> (r: Result<(), RemoteCodexError>)
        ensures
            r matches Err(e) ==> e is Keyring,
    {
        let entry = Self::entry(profile_id)?;
        match entry_delete_credential(&entry) {
            Ok(()) => Ok(()),
            Err(e) => if is_no_entry(&e) {
                Ok(())
            } else {
                Err(keyring_failure(&e))
            },
        }
    }
}

} // verus!
