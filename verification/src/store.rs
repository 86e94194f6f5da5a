//! The secret store: where encrypted values, the master key and the share
//! identity are kept, each under a (service, account) pair.

use vstd::prelude::*;

use crate::domain::SecretLocator;

verus! {

/// Why the secret store failed, in its own words.
#[derive(Debug, PartialEq, Eq)]
pub struct StoreError {
    pub message: String,
}

/// The key under which a locator's item is kept.
pub open spec fn item_key(l: SecretLocator) -> (Seq<char>, Seq<char>) {
    (l.service@, l.account@)
}

/// The account of the doctor's probe item with this suffix.
pub open spec fn probe_account(suffix: Seq<char>) -> Seq<char> {
    "probe/"@ + suffix
}

/// A store of secret items, keyed by service and account. Implementations
/// are the operating system's credential store, a directory of files, or
/// memory; each promises that a successful `put` is seen by later `get`s.
///
/// The promise is stated over a model, `secrets`, and holds for an
/// implementation that says it keeps the model (`obeys_store_model`).
/// Implementations outside verified code cannot define either spec function,
/// since plain Rust cannot name one; they keep the defaults, under which the
/// operations promise nothing, so nothing is claimed of them.
pub trait SecretStore {
    /// Whether this implementation keeps the model: its items are what
    /// `secrets` says and its operations change them as stated below.
    closed spec fn obeys_store_model() -> bool {
        false
    }

    /// The items held, by (service, account), for an implementation that
    /// keeps the model; the default is only a placeholder for those that
    /// do not.
    closed spec fn secrets(&self) -> Map<(Seq<char>, Seq<char>), Seq<u8>> {
        Map::empty()
    }

    fn put(&mut self, locator: &SecretLocator, secret: &[u8]) -> (r: Result<(), StoreError>)
        ensures
            Self::obeys_store_model() ==> (r is Ok ==> final(self).secrets() == old(self).secrets().insert(
                item_key(*locator),
                secret@,
            )),
    ;

    fn get(&self, locator: &SecretLocator) -> (r: Result<Option<Vec<u8>>, StoreError>)
        ensures
            Self::obeys_store_model() ==> (r matches Ok(Some(v)) ==> self.secrets().contains_key(
                item_key(*locator),
            ) && self.secrets()[item_key(*locator)] == v@),
            Self::obeys_store_model() ==> (r matches Ok(None) ==> !self.secrets().contains_key(
                item_key(*locator),
            )),
    ;

    fn delete(&mut self, locator: &SecretLocator) -> (r: Result<(), StoreError>)
        ensures
            Self::obeys_store_model() ==> (r is Ok ==> final(self).secrets() == old(self).secrets().remove(
                item_key(*locator),
            )),
    ;

    /// A round trip through the store with a throw-away item of the doctor's
    /// probe service: on success the store holds what it held before, less
    /// that item.
    fn probe(&mut self) -> (r: Result<(), StoreError>)
        ensures
            Self::obeys_store_model() ==> (r is Ok ==> exists|account: Seq<char>|
                final(self).secrets() == old(self).secrets().remove(
                    ("dev.easyenv.doctor"@, #[trigger] probe_account(account)),
                )),
    ;
}

} // verus!
