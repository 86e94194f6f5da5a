use std::cell::RefCell;
use std::collections::HashMap;
use std::rc::Rc;

use easyenv::domain::{EnvKey, Scope, SecretLocator};
use easyenv::error::EnvError;
use easyenv::metadata::MetadataStore;
use easyenv::paths::AppPaths;
use easyenv::service::{DesiredScope, EasyEnv};
use easyenv::share::{
    apply_bundle, ensure_identity, export_bundle, load_or_generate_identity, open_bundle,
    recipient_accepted, rotate_identity, seal_bundle, select_secrets, ShareBundle, SharedItem,
};
use easyenv::store::{SecretStore, StoreError};

#[derive(Clone, Default)]
struct SharedStore {
    values: Rc<RefCell<HashMap<(String, String), Vec<u8>>>>,
}

impl SecretStore for SharedStore {
    fn put(&mut self, l: &SecretLocator, s: &[u8]) -> Result<(), StoreError> {
        self.values.borrow_mut().insert((l.service.clone(), l.account.clone()), s.to_vec());
        Ok(())
    }
    fn get(&self, l: &SecretLocator) -> Result<Option<Vec<u8>>, StoreError> {
        Ok(self.values.borrow().get(&(l.service.clone(), l.account.clone())).cloned())
    }
    fn delete(&mut self, l: &SecretLocator) -> Result<(), StoreError> {
        self.values.borrow_mut().remove(&(l.service.clone(), l.account.clone()));
        Ok(())
    }
    fn probe(&mut self) -> Result<(), StoreError> {
        Ok(())
    }
}

fn app(store: &SharedStore) -> EasyEnv<SharedStore> {
    let paths = AppPaths::from_data_dir("/home/u/.easyenv");
    let metadata = MetadataStore::new(&paths.db_path);
    EasyEnv::new(paths, store.clone(), metadata)
}

#[test]
fn the_workspace_identity_is_made_once_and_can_be_rotated() {
    let mut store = SharedStore::default();
    let first = ensure_identity(&mut store).unwrap();
    assert!(first.recipient.starts_with("age1"));
    let again = ensure_identity(&mut store).unwrap();
    assert_eq!(first.recipient, again.recipient);
    let rotated = rotate_identity(&mut store).unwrap();
    assert_ne!(rotated.recipient, first.recipient);
    assert_eq!(ensure_identity(&mut store).unwrap().recipient, rotated.recipient);

    let mut broken = SharedStore::default();
    broken.put(&SecretLocator::share_identity(), b"not an identity").unwrap();
    assert_eq!(load_or_generate_identity(&mut broken).unwrap_err(), EnvError::IdentityUnparseable);
    broken.put(&SecretLocator::share_identity(), &[0xff, 0xfe]).unwrap();
    assert_eq!(load_or_generate_identity(&mut broken).unwrap_err(), EnvError::NotUtf8);
}

#[test]
fn selections_need_keys_or_all() {
    let store = SharedStore::default();
    let mut sender = app(&store);
    sender
        .set_secret("/w", DesiredScope::Global, "default", EnvKey::parse("B").unwrap(), "b", None)
        .unwrap();
    sender
        .set_secret("/w", DesiredScope::Global, "default", EnvKey::parse("A").unwrap(), "a", None)
        .unwrap();
    assert_eq!(select_secrets(&mut sender, "/w", "default", &[], false).unwrap_err(), EnvError::NoSelection);
    let all = select_secrets(&mut sender, "/w", "default", &[], true).unwrap();
    assert_eq!(all.len(), 2);
    assert_eq!(all[0].key.as_str(), "A");
    let missing = EnvKey::parse("NOPE").unwrap();
    assert_eq!(
        select_secrets(&mut sender, "/w", "default", &[missing.clone()], false).unwrap_err(),
        EnvError::NotFound(missing)
    );
    let first = EnvKey::parse("FIRST_MISSING").unwrap();
    let keys = vec![EnvKey::parse("A").unwrap(), first.clone(), EnvKey::parse("SECOND_MISSING").unwrap()];
    assert_eq!(select_secrets(&mut sender, "/w", "default", &keys, false).unwrap_err(), EnvError::NotFound(first));
}

#[test]
fn a_bundle_travels_between_workspaces() {
    let mut sender_store = SharedStore::default();
    let mut receiver_store = SharedStore::default();
    let mut sender = app(&sender_store);
    let mut receiver = app(&receiver_store);
    sender
        .set_secret("/w", DesiredScope::Global, "default", EnvKey::parse("OPENAI_API_KEY").unwrap(), "shared-secret", None)
        .unwrap();
    let recipient = ensure_identity(&mut receiver_store).unwrap().recipient;

    assert_eq!(
        export_bundle(&mut sender, &mut sender_store, "/w", "default", &[], true, &[]).unwrap_err(),
        EnvError::NoRecipients
    );
    assert_eq!(
        export_bundle(&mut sender, &mut sender_store, "/w", "default", &[], true, &["nope".to_string()])
            .unwrap_err(),
        EnvError::InvalidRecipient("nope".to_string())
    );
    let keys = vec![EnvKey::parse("OPENAI_API_KEY").unwrap()];
    let bundle = export_bundle(&mut sender, &mut sender_store, "/w", "default", &keys, false, &[recipient.clone()])
        .unwrap();
    assert_eq!(bundle.version, 1);
    assert_eq!(bundle.items.len(), 1);
    assert_eq!(bundle.items[0].value, "shared-secret");
    assert_eq!(bundle.items[0].source_scope, "global");
    let sender_recipient = ensure_identity(&mut sender_store).unwrap().recipient;
    assert_eq!(bundle.sender, sender_recipient);

    let plaintext = b"{\"items\":1}".to_vec();
    let sealed = seal_bundle(&[recipient.clone()], &plaintext).unwrap();
    assert!(sealed.starts_with(b"-----BEGIN AGE ENCRYPTED FILE-----"));
    assert_eq!(open_bundle(&mut receiver_store, &sealed).unwrap(), plaintext);
    assert_eq!(open_bundle(&mut sender_store, &sealed).unwrap_err(), EnvError::BundleDecryptFailed);

    let imported = apply_bundle(&mut receiver, "/r", DesiredScope::Global, "default", bundle).unwrap();
    assert_eq!(imported.item_count, 1);
    assert_eq!(imported.scope, Scope::Global);
    assert_eq!(imported.sender, sender_recipient);
    let read = receiver
        .get_secret("/r", &EnvKey::parse("OPENAI_API_KEY").unwrap(), "default")
        .unwrap()
        .unwrap();
    assert_eq!(read.value, "shared-secret");
}

#[test]
fn empty_or_invalid_bundles_are_refused() {
    let store = SharedStore::default();
    let mut receiver = app(&store);
    let empty = ShareBundle { version: 1, sender: "age1x".into(), profile: "default".into(), created_at: 0, items: vec![] };
    assert_eq!(apply_bundle(&mut receiver, "/r", DesiredScope::Global, "default", empty).unwrap_err(), EnvError::EmptyBundle);
    let bad = ShareBundle {
        version: 1,
        sender: "age1x".into(),
        profile: "default".into(),
        created_at: 0,
        items: vec![SharedItem { key: "bad key".into(), value: "v".into(), source_scope: "global".into() }],
    };
    assert_eq!(apply_bundle(&mut receiver, "/r", DesiredScope::Global, "default", bad).unwrap_err(), EnvError::KeyBadChar);
}

/// The all-zero key and the key 1 have low order; 9, the base point, does not.
const ZERO_KEY: &str = "age1qqqqqqqqqqqqqqqqqqqqqqqqqqqqqqqqqqqqqqqqqqqqqqqqqqqq5cu47z";
const ONE_KEY: &str = "age1qyqqqqqqqqqqqqqqqqqqqqqqqqqqqqqqqqqqqqqqqqqqqqqqqqqqqqj7vrya";
const BASE_POINT_KEY: &str = "age1pyqqqqqqqqqqqqqqqqqqqqqqqqqqqqqqqqqqqqqqqqqqqqqqqqqqq8r66x";

#[test]
fn low_order_recipients_are_refused_before_sealing() {
    assert!(!recipient_accepted(ZERO_KEY));
    assert!(!recipient_accepted(ONE_KEY));
    assert!(!recipient_accepted("nope"));
    assert!(recipient_accepted(BASE_POINT_KEY));
    let mut store = SharedStore::default();
    let own = ensure_identity(&mut store).unwrap().recipient;
    assert!(recipient_accepted(&own));

    assert_eq!(seal_bundle(&[], b"x").unwrap_err(), EnvError::NoRecipients);
    assert_eq!(
        seal_bundle(&[own.clone(), ZERO_KEY.to_string()], b"x").unwrap_err(),
        EnvError::InvalidRecipient(ZERO_KEY.to_string())
    );
    assert!(seal_bundle(&[own.clone(), BASE_POINT_KEY.to_string()], b"x").is_ok());

    let mut app_ = app(&store);
    app_.set_secret("/w", DesiredScope::Global, "default", EnvKey::parse("K").unwrap(), "v", None).unwrap();
    assert_eq!(
        export_bundle(&mut app_, &mut store, "/w", "default", &[], true, &[own, ONE_KEY.to_string()]).unwrap_err(),
        EnvError::InvalidRecipient(ONE_KEY.to_string())
    );
}
