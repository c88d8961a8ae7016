use vstd::prelude::*;
use rand::{distributions::Alphanumeric, Rng};
use crate::errors::StoreError;

verus! {

/// Length of a generated key: 32 alphanumeric characters.
pub const KEY_LENGTH: usize = 32;

/// An ASCII letter or digit, the alphabet of generated keys.
pub open spec fn is_key_char(c: char) -> bool {
    ||| 48 <= c as int <= 57
    ||| 65 <= c as int <= 90
    ||| 97 <= c as int <= 122
}

pub open spec fn is_generated_key(s: Seq<char>) -> bool {
    s.len() == KEY_LENGTH && forall|i: int| 0 <= i < s.len() ==> is_key_char(#[trigger] s[i])
}

/// Relies on rand's `thread_rng` and the `Alphanumeric` distribution: each
/// sample is one ASCII letter or digit, and `take(len)` collects exactly
/// `len` of them. Which characters come back is chance; only the length and
/// the alphabet are assumed.
#[verifier::external_body]
fn random_alphanumeric(len: usize) -> (r: String)
    ensures
        r@.len() == len as int,
        forall|i: int| 0 <= i < r@.len() ==> is_key_char(#[trigger] r@[i]),
{
    rand::thread_rng().sample_iter(&Alphanumeric).take(len).map(char::from).collect()
}

/// A fresh cryptographically-random passphrase-style key.
fn generate_random_key() -> (r: String)
    ensures
        is_generated_key(r@),
{
    random_alphanumeric(KEY_LENGTH)
}

// ---------------------------------------------------------------------------
// The key lifecycle
// ---------------------------------------------------------------------------

/// The key acquisition step over the persisted slot: an existing key is
/// returned unchanged; an empty slot takes the freshly generated key and
/// returns it.
pub open spec fn spec_get_key(stored: Option<Seq<char>>, fresh: Seq<char>) -> (
    Option<Seq<char>>,
    Seq<char>,
) {
    match stored {
        Some(k) => (Some(k), k),
        None => (Some(fresh), fresh),
    }
}

/// The key deletion step: the slot is emptied; deleting an empty slot is
/// `NotFound`.
pub open spec fn spec_delete_key(stored: Option<Seq<char>>) -> (
    Option<Seq<char>>,
    Result<(), StoreError>,
) {
    match stored {
        Some(_) => (None, Ok(())),
        None => (None, Err(StoreError::NotFound)),
    }
}

/// The encryption-key lifecycle over one persisted slot. The slot stands for
/// whatever the platform offers — a credential-vault entry or a
/// permission-restricted key file; the surrounding process loads the slot at
/// startup and writes it back after each change.
pub struct KeyStore {
    pub stored: Option<String>,
}

impl KeyStore {
    /// A store in which no key has ever been persisted.
    pub fn new() -> (r: KeyStore)
        ensures
            r.stored is None,
    {
        KeyStore { stored: None }
    }

    /// A store holding the key read back from the platform's secret
    /// facility.
    pub fn with_key(key: String) -> (r: KeyStore)
        ensures
            r.stored matches Some(k) && k@ == key@,
    {
        KeyStore { stored: Some(key) }
    }

    /// The persisted key, generating and persisting a fresh one on first
    /// use: a second call always returns the key the first call did.
    pub fn get_encryption_key(&mut self) -> (key: String)
        ensures
            final(self).stored matches Some(k) && k@ == key@,
            crate::model::view_opt_str(final(self).stored) == spec_get_key(
                crate::model::view_opt_str(old(self).stored),
                key@,
            ).0,
            key@ == spec_get_key(crate::model::view_opt_str(old(self).stored), key@).1,
            old(self).stored is None ==> is_generated_key(key@),
    {
        match &self.stored {
            Some(k) => k.clone(),
            None => {
                let key = generate_random_key();
                self.stored = Some(key.clone());
                key
            },
        }
    }

    /// Remove the persisted key; `NotFound` when none exists.
    pub fn delete_encryption_key(&mut self) -> (r: Result<(), StoreError>)
        ensures
            crate::model::view_opt_str(final(self).stored) == spec_delete_key(
                crate::model::view_opt_str(old(self).stored),
            ).0,
            r == spec_delete_key(crate::model::view_opt_str(old(self).stored)).1,
    {
        match &self.stored {
            Some(_) => {
                self.stored = None;
                Ok(())
            },
            None => Err(StoreError::NotFound),
        }
    }
}

} // verus!
