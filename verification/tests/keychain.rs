use std::cell::RefCell;
use std::collections::HashMap;
use std::rc::Rc;

use sha2::Digest;

use easyenv::domain::SecretLocator;
use easyenv::keychain::{
    cleanup_opposite_store, delete, get, prefers_sync, probe_roundtrip, put, sync_candidates,
    ConfiguredSecretStore, FileSecretStore, GlobalSyncMode, KeychainConfig, MemorySecretStore,
    NativeSecretStore,
};
use easyenv::store::{SecretStore, StoreError};

#[derive(Clone, Default)]
struct MapStore {
    values: Rc<RefCell<HashMap<(String, String), Vec<u8>>>>,
}

impl SecretStore for MapStore {
    fn put(&mut self, l: &SecretLocator, s: &[u8]) -> Result<(), StoreError> {
        self.values.borrow_mut().insert((l.service.clone(), l.account.clone()), s.to_vec());
        Ok(())
    }
    fn get(&self, l: &SecretLocator) -> Result<Option<Vec<u8>>, StoreError> {
        Ok(self.values.borrow().get(&(l.service.clone(), l.account.clone())).cloned())
    }
    fn delete(&mut self, l: &SecretLocator) -> Result<(), StoreError> {
        self.values.borrow_mut().remove(&(l.service.clone(), l.account.clone()));
        Ok(())
    }
    fn probe(&mut self) -> Result<(), StoreError> {
        probe_roundtrip(self, "test")
    }
}

fn err(m: &str) -> StoreError {
    StoreError { message: m.to_string() }
}

#[test]
fn file_store_paths_hash_service_and_account() {
    let store = FileSecretStore::new("/tmp/secrets");
    let locator = SecretLocator::doctor_probe("test");
    let mut hasher = sha2::Sha256::new();
    hasher.update(b"dev.easyenv.doctor");
    hasher.update([0]);
    hasher.update(b"probe/test");
    let expected = format!("/tmp/secrets/{}.secret", hex::encode(hasher.finalize()));
    assert_eq!(store.file_path(&locator), expected);
}

#[test]
fn probes_leave_the_store_as_it_was() {
    let mut store = MapStore::default();
    let mut configured: ConfiguredSecretStore<MapStore, MapStore> = ConfiguredSecretStore::File(store.clone());
    assert!(configured.probe().is_ok());
    assert!(store.values.borrow().is_empty());
    assert!(store.probe().is_ok());
    let _native = NativeSecretStore;
}

#[test]
fn global_items_prefer_synchronised_storage() {
    let global = SecretLocator {
        service: "dev.easyenv.global".into(),
        account: "global/default/A".into(),
        label: "easyenv A".into(),
    };
    let master = SecretLocator::master_key();
    assert!(prefers_sync(&global));
    assert!(!prefers_sync(&master));
    assert_eq!(sync_candidates(&global, GlobalSyncMode::Prefer), vec![true, false]);
    assert_eq!(sync_candidates(&global, GlobalSyncMode::Force), vec![true]);
    assert_eq!(sync_candidates(&global, GlobalSyncMode::Never), vec![false]);
    assert_eq!(sync_candidates(&master, GlobalSyncMode::Force), vec![false]);
    assert_eq!(cleanup_opposite_store(&global, true), Some(false));
    assert_eq!(cleanup_opposite_store(&master, true), None);
}

#[test]
fn keychain_settings_parse() {
    let c = KeychainConfig::from_values(Some("  team.group "), Some(" ALWAYS "));
    assert_eq!(c.access_group.as_deref(), Some("team.group"));
    assert_eq!(c.global_sync, GlobalSyncMode::Force);
    let c = KeychainConfig::from_values(Some("   "), Some("Local"));
    assert!(c.access_group.is_none());
    assert_eq!(c.global_sync, GlobalSyncMode::Never);
    assert_eq!(KeychainConfig::from_values(None, None).global_sync, GlobalSyncMode::Prefer);
    assert_eq!(KeychainConfig::from_values(None, Some("maybe")).global_sync, GlobalSyncMode::Prefer);
}

#[test]
fn tries_settle_as_the_keychain_rules_say() {
    let global = SecretLocator::master_key();
    let global_item = SecretLocator {
        service: "dev.easyenv.global".to_string(),
        account: "global/default/API_KEY".to_string(),
        label: "easyenv API_KEY".to_string(),
    };
    assert_eq!(put(vec![Err(err("a")), Ok(())], &global_item, GlobalSyncMode::Prefer).unwrap(), false);
    assert_eq!(put(vec![Ok(())], &global_item, GlobalSyncMode::Prefer).unwrap(), true);
    assert_eq!(put(vec![Ok(())], &global, GlobalSyncMode::Force).unwrap(), false);
    assert_eq!(
        put(vec![Err(err("a")), Err(err("b"))], &global_item, GlobalSyncMode::Prefer).unwrap_err(),
        err("b")
    );

    assert_eq!(
        get(vec![Err(err("a")), Ok(Some(vec![1]))], &global_item, GlobalSyncMode::Prefer).unwrap(),
        Some(vec![1])
    );
    assert_eq!(get(vec![Err(err("a")), Ok(None)], &global_item, GlobalSyncMode::Prefer).unwrap_err(), err("a"));
    assert_eq!(get(vec![Err(err("a"))], &global, GlobalSyncMode::Prefer).unwrap(), None);
    assert_eq!(get(vec![Err(err("a"))], &global, GlobalSyncMode::Force).unwrap_err(), err("a"));
    assert_eq!(get(vec![Ok(None)], &global_item, GlobalSyncMode::Force).unwrap(), None);

    assert!(delete(vec![Err(err("a")), Ok(())]).is_ok());
    assert!(delete(vec![]).is_ok());
    assert_eq!(delete(vec![Err(err("a")), Err(err("b"))]).unwrap_err(), err("b"));
}

#[test]
fn the_memory_store_keeps_the_last_write_of_each_item() {
    let mut store = MemorySecretStore::new();
    let master = SecretLocator::master_key();
    let probe = SecretLocator::doctor_probe("x");
    assert_eq!(store.get(&master).unwrap(), None);
    store.put(&master, b"one").unwrap();
    store.put(&probe, b"other").unwrap();
    store.put(&master, b"two").unwrap();
    assert_eq!(store.get(&master).unwrap(), Some(b"two".to_vec()));
    store.delete(&master).unwrap();
    assert_eq!(store.get(&master).unwrap(), None);
    assert_eq!(store.get(&probe).unwrap(), Some(b"other".to_vec()));
    assert!(store.probe().is_ok());
    assert!(probe_roundtrip(&mut store, "again").is_ok());
    assert_eq!(store.get(&SecretLocator::doctor_probe("again")).unwrap(), None);
}
