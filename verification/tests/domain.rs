use std::str::FromStr;

use easyenv::domain::{default_project_name, project_id_for_path, EnvKey, Scope, SecretLocator, VarMetadata};
use sha2::Digest;
use easyenv::error::EnvError;

#[test]
fn accepts_valid_env_keys() {
    assert!(EnvKey::parse("OPENAI_API_KEY").is_ok());
    assert!(EnvKey::parse("_PRIVATE").is_ok());
}

#[test]
fn rejects_invalid_env_keys() {
    assert!(EnvKey::parse("1BAD").is_err());
    assert!(EnvKey::parse("BAD-KEY").is_err());
    assert!(EnvKey::parse("").is_err());
}

#[test]
fn scope_roundtrip() {
    assert_eq!(Scope::from_str("global").unwrap(), Scope::Global);
    assert_eq!(Scope::Project.to_string(), "project");
}

#[test]
fn key_errors_name_the_fault() {
    assert_eq!(EnvKey::parse("").unwrap_err(), EnvError::EmptyKey);
    assert_eq!(EnvKey::parse("1BAD").unwrap_err(), EnvError::KeyBadStart);
    assert_eq!(EnvKey::parse("BAD-KEY").unwrap_err(), EnvError::KeyBadChar);
    assert_eq!(EnvKey::parse("ok_1").unwrap().as_str(), "ok_1");
}

#[test]
fn scope_names_parse_ignoring_case_and_space() {
    assert_eq!(Scope::from_str("  PROJECT ").unwrap(), Scope::Project);
    assert_eq!(Scope::from_str("Shell").unwrap(), Scope::Shell);
    assert_eq!(
        Scope::from_str(" Everywhere ").unwrap_err(),
        EnvError::InvalidScope("everywhere".to_string())
    );
    assert!(Scope::Global.stored());
    assert!(!Scope::Shell.stored());
    assert_eq!(Scope::Global.as_str(), "global");
}

#[test]
fn locators_name_their_items() {
    let master = SecretLocator::master_key();
    assert_eq!(master.service, "dev.easyenv.master");
    assert_eq!(master.account, "master/aes256gcm/default");
    let probe = SecretLocator::doctor_probe("42");
    assert_eq!(probe.account, "probe/42");
    let identity = SecretLocator::share_identity();
    assert_eq!(identity.service, "dev.easyenv.identity");
}

#[test]
fn variable_locators_depend_on_scope() {
    let global = VarMetadata {
        key: EnvKey::parse("API_KEY").unwrap(),
        scope: Scope::Global,
        project_id: None,
        profile: " dev ".to_string(),
        updated_at: 1,
        expires_at: None,
    };
    let l = SecretLocator::for_var(&global).unwrap();
    assert_eq!(l.service, "dev.easyenv.global");
    assert_eq!(l.account, "global/dev/API_KEY");
    assert_eq!(l.label, "easyenv API_KEY");

    let project = VarMetadata {
        key: EnvKey::parse("API_KEY").unwrap(),
        scope: Scope::Project,
        project_id: Some("abc".to_string()),
        profile: "default".to_string(),
        updated_at: 1,
        expires_at: None,
    };
    let l = SecretLocator::for_var(&project).unwrap();
    assert_eq!(l.service, "dev.easyenv.project");
    assert_eq!(l.account, "project/abc/default/API_KEY");

    let missing = VarMetadata { project_id: None, ..project };
    assert_eq!(SecretLocator::for_var(&missing).unwrap_err(), EnvError::MissingProjectId);
    let shell = VarMetadata { scope: Scope::Shell, ..global };
    assert_eq!(SecretLocator::for_var(&shell).unwrap_err(), EnvError::ShellNotStored);
}

#[test]
fn project_names_come_from_the_last_component() {
    assert_eq!(default_project_name("/tmp/repo"), "repo");
    assert_eq!(default_project_name("/tmp/repo/"), "repo");
    assert_eq!(default_project_name("/"), "project");
    assert_eq!(default_project_name("/tmp/.."), "project");
}

#[test]
fn project_ids_are_hex_of_the_path_digest() {
    let id = project_id_for_path("/tmp/example");
    let digest = sha2::Sha256::digest("/tmp/example".as_bytes());
    assert_eq!(id, hex::encode(&digest[..16]));
    assert_eq!(id.len(), 32);
}
