use std::cell::RefCell;
use std::collections::HashMap;
use std::rc::Rc;

use easyenv::domain::{EnvKey, Scope, SecretLocator};
use easyenv::error::EnvError;
use easyenv::metadata::MetadataStore;
use easyenv::paths::AppPaths;
use easyenv::service::{mask_value, CheckStatus, DesiredScope, EasyEnv};
use easyenv::store::{SecretStore, StoreError};

#[derive(Clone, Default)]
struct MemoryStore {
    values: Rc<RefCell<HashMap<(String, String), Vec<u8>>>>,
    broken: bool,
}

impl SecretStore for MemoryStore {
    fn put(&mut self, locator: &SecretLocator, secret: &[u8]) -> Result<(), StoreError> {
        self.values
            .borrow_mut()
            .insert((locator.service.clone(), locator.account.clone()), secret.to_vec());
        Ok(())
    }

    fn get(&self, locator: &SecretLocator) -> Result<Option<Vec<u8>>, StoreError> {
        Ok(self
            .values
            .borrow()
            .get(&(locator.service.clone(), locator.account.clone()))
            .cloned())
    }

    fn delete(&mut self, locator: &SecretLocator) -> Result<(), StoreError> {
        self.values
            .borrow_mut()
            .remove(&(locator.service.clone(), locator.account.clone()));
        Ok(())
    }

    fn probe(&mut self) -> Result<(), StoreError> {
        if self.broken {
            Err(StoreError { message: "store offline".to_string() })
        } else {
            Ok(())
        }
    }
}

fn app() -> EasyEnv<MemoryStore> {
    let paths = AppPaths::from_data_dir("/home/u/.easyenv");
    let metadata = MetadataStore::new(&paths.db_path);
    EasyEnv::new(paths, MemoryStore::default(), metadata)
}

fn key(k: &str) -> EnvKey {
    EnvKey::parse(k).unwrap()
}

#[test]
fn resolves_project_scope_over_global_scope() {
    let mut app = app();
    app.init_project("/work/repo").unwrap();
    app.set_secret("/work", DesiredScope::Global, "default", key("API_KEY"), "global", None)
        .unwrap();
    app.set_secret("/work/repo", DesiredScope::Project, "default", key("API_KEY"), "project", None)
        .unwrap();

    let resolved = app
        .get_secret("/work/repo/nested", &key("API_KEY"), "default")
        .unwrap()
        .unwrap();
    assert_eq!(resolved.scope, Scope::Project);
    assert_eq!(resolved.value.as_str(), "project");
    assert_eq!(resolved.project_root.as_deref(), Some("/work/repo"));

    let outside = app.get_secret("/elsewhere", &key("API_KEY"), "default").unwrap().unwrap();
    assert_eq!(outside.scope, Scope::Global);
    assert_eq!(outside.value, "global");
}

#[test]
fn masks_values_for_human_output() {
    assert_eq!(mask_value("abcd"), "****");
    assert_eq!(mask_value("abcdefgh"), "ab***gh");
}

#[test]
fn a_written_value_reads_back() {
    let mut app = app();
    let stored = app
        .set_secret("/tmp", DesiredScope::Auto, " dev ", key("TOKEN"), "s3cr3t", None)
        .unwrap();
    assert_eq!(stored.scope, Scope::Global);
    assert_eq!(stored.profile, "dev");
    let read = app.get_secret("/tmp", &key("TOKEN"), "dev").unwrap().unwrap();
    assert_eq!(read.value, "s3cr3t");
    assert!(app.get_secret("/tmp", &key("OTHER"), "dev").unwrap().is_none());
    assert!(app.get_secret("/tmp", &key("TOKEN"), "prod").unwrap().is_none());
}

#[test]
fn writes_are_refused_where_they_cannot_go() {
    let mut app = app();
    assert_eq!(
        app.set_secret("/tmp", DesiredScope::Project, "default", key("A"), "x", None)
            .unwrap_err(),
        EnvError::NoProject("/tmp".to_string())
    );
    assert_eq!(
        app.set_secret("/tmp", DesiredScope::Global, "   ", key("A"), "x", None)
            .unwrap_err(),
        EnvError::EmptyProfile
    );
    assert_eq!(app.get_secret("/tmp", &key("A"), "").unwrap_err(), EnvError::EmptyProfile);
}

#[test]
fn listing_shows_project_values_over_global_ones_in_key_order() {
    let mut app = app();
    app.init_project("/w/p").unwrap();
    app.set_secret("/w", DesiredScope::Global, "default", key("B"), "gb", None).unwrap();
    app.set_secret("/w", DesiredScope::Global, "default", key("A"), "ga", None).unwrap();
    app.set_secret("/w/p", DesiredScope::Auto, "default", key("B"), "pb", None).unwrap();

    let all = app.list_secrets("/w/p", None, "default").unwrap();
    let seen: Vec<(&str, &str)> = all.iter().map(|s| (s.key.as_str(), s.value.as_str())).collect();
    assert_eq!(seen, vec![("A", "ga"), ("B", "pb")]);

    let global = app.list_secrets("/w/p", Some(Scope::Global), "default").unwrap();
    assert_eq!(global.len(), 2);
    let project = app.list_secrets("/w/p", Some(Scope::Project), "default").unwrap();
    assert_eq!(project.len(), 1);
    assert_eq!(project[0].scope, Scope::Project);
    assert!(app.list_secrets("/w", Some(Scope::Project), "default").unwrap().is_empty());
    assert!(app.list_secrets("/w", Some(Scope::Shell), "default").unwrap().is_empty());
}

#[test]
fn shell_overrides_win_in_the_resolved_environment() {
    let mut app = app();
    app.set_secret("/w", DesiredScope::Global, "default", key("FOO"), "stored", None).unwrap();
    app.set_secret("/w", DesiredScope::Global, "default", key("BAR"), "kept", None).unwrap();
    let overrides = vec![
        (key("FOO"), "first".to_string()),
        (key("ZED"), "z".to_string()),
        (key("FOO"), "shell".to_string()),
    ];
    let env = app.resolve_environment("/w", "default", &overrides).unwrap();
    let seen: Vec<(&str, &str, Scope)> =
        env.iter().map(|s| (s.key.as_str(), s.value.as_str(), s.scope)).collect();
    assert_eq!(
        seen,
        vec![
            ("BAR", "kept", Scope::Global),
            ("FOO", "shell", Scope::Shell),
            ("ZED", "z", Scope::Shell)
        ]
    );
}

#[test]
fn importing_a_dotenv_file_stores_each_entry() {
    let mut app = app();
    let out = app
        .import_dotenv("/w", "FOO=bar\nPROJECT_KEY=\"quoted\"\nFOO=again\n", DesiredScope::Global, "default", true)
        .unwrap();
    assert_eq!(out.imported, 3);
    assert!(out.deleted_source);
    assert_eq!(out.scope, Scope::Global);
    assert!(out.project_root.is_none());
    let listed = app.list_secrets("/w", Some(Scope::Global), "default").unwrap();
    let seen: Vec<(&str, &str)> = listed.iter().map(|s| (s.key.as_str(), s.value.as_str())).collect();
    assert_eq!(seen, vec![("FOO", "again"), ("PROJECT_KEY", "quoted")]);

    assert_eq!(
        app.import_dotenv("/w", "oops\n", DesiredScope::Global, "default", false).unwrap_err(),
        EnvError::DotenvMissingEquals(1)
    );
}

#[test]
fn doctor_reports_each_check() {
    let mut app = app();
    app.init_project("/w/p").unwrap();
    let report = app.doctor("/w/p/src");
    assert_eq!(report.data_dir, "/home/u/.easyenv");
    assert_eq!(report.db_path, "/home/u/.easyenv/easyenv.sqlite");
    assert_eq!(report.active_project.as_deref(), Some("/w/p"));
    let names: Vec<&str> = report.checks.iter().map(|c| c.name.as_str()).collect();
    assert_eq!(names, vec!["paths", "sqlite", "secret_store", "project", "icloud"]);
    assert_eq!(report.checks[0].message, "using /home/u/.easyenv");
    assert_eq!(report.checks[2].status, CheckStatus::Pass);
    assert_eq!(report.checks[3].message, "active project: /w/p");
    assert_eq!(report.checks[4].status, CheckStatus::Warn);

    let paths = AppPaths::from_data_dir("/d");
    let metadata = MetadataStore::new(&paths.db_path);
    let mut broken = EasyEnv::new(paths, MemoryStore { broken: true, ..Default::default() }, metadata);
    let report = broken.doctor("/x");
    assert_eq!(report.checks[2].status, CheckStatus::Fail);
    assert_eq!(report.checks[2].message, "store offline");
    assert_eq!(report.checks[3].status, CheckStatus::Warn);
    assert_eq!(report.checks[3].message, "no registered project for current directory");
}

#[test]
fn init_registers_a_project_once() {
    let mut app = app();
    let first = app.init_project("/w/repo").unwrap();
    let again = app.init_project("/w/repo").unwrap();
    assert_eq!(first, again);
    assert_eq!(first.name, "repo");
    assert_eq!(first.id.len(), 32);
    assert_eq!(app.active_project("/w/repo/a/b").unwrap().id, first.id);
    assert!(app.active_project("/w").is_none());
}

#[test]
fn the_verified_memory_store_serves_the_tool() {
    let paths = AppPaths::from_data_dir("/home/u/.easyenv");
    let metadata = MetadataStore::new(&paths.db_path);
    let mut app = EasyEnv::new(paths, easyenv::keychain::MemorySecretStore::new(), metadata);
    app.init_project("/w/p").unwrap();
    app.set_secret("/w/p", DesiredScope::Global, "default", key("API_KEY"), "global-value", None).unwrap();
    app.set_secret("/w/p", DesiredScope::Project, "default", key("API_KEY"), "project-value", None).unwrap();
    let read = app.get_secret("/w/p/src", &key("API_KEY"), "default").unwrap().unwrap();
    assert_eq!(read.value, "project-value");
    let outside = app.get_secret("/elsewhere", &key("API_KEY"), "default").unwrap().unwrap();
    assert_eq!(outside.value, "global-value");
    let report = app.doctor("/w/p");
    assert_eq!(report.checks[2].status, CheckStatus::Pass);
}
