use easyenv::cli::{
    desired_scope, doctor_lines, dotenv_quote, export_message, get_lines, imported_message,
    init_message, list_lines, parse_assignment, parse_keys, parse_shell_override, pull_message,
    shell_quote, stored_message, workspace_lines, ListStyle,
};
use easyenv::domain::{EnvKey, ProjectRecord, Scope};
use easyenv::error::EnvError;
use easyenv::service::{CheckStatus, DesiredScope, DoctorCheck, DoctorReport, ImportOutcome, ResolvedSecret};
use easyenv::share::{ShareExport, ShareImport};

#[test]
fn flags_choose_the_scope() {
    assert_eq!(desired_scope(false, false).unwrap(), DesiredScope::Auto);
    assert_eq!(desired_scope(true, false).unwrap(), DesiredScope::Global);
    assert_eq!(desired_scope(false, true).unwrap(), DesiredScope::Project);
    assert_eq!(desired_scope(true, true).unwrap_err(), EnvError::ConflictingScopeFlags);
}

#[test]
fn assignments_take_either_form() {
    let (k, v) = parse_assignment(" API_KEY =a=b", None).unwrap();
    assert_eq!(k.as_str(), "API_KEY");
    assert_eq!(v, "a=b");
    let (k, v) = parse_assignment("TOKEN", Some("xyz".to_string())).unwrap();
    assert_eq!(k.as_str(), "TOKEN");
    assert_eq!(v, "xyz");
    assert_eq!(parse_assignment("A=1", Some("2".into())).unwrap_err(), EnvError::AssignmentBothForms);
    assert_eq!(parse_assignment("A", None).unwrap_err(), EnvError::AssignmentMissingValue);
    assert_eq!(parse_assignment("1A=x", None).unwrap_err(), EnvError::KeyBadStart);
}

#[test]
fn keys_and_overrides_parse() {
    let keys = parse_keys(&["A".to_string(), "B_2".to_string()]).unwrap();
    assert_eq!(keys.len(), 2);
    assert_eq!(parse_keys(&["A".to_string(), "bad-key".to_string()]).unwrap_err(), EnvError::KeyBadChar);
    let (k, v) = parse_shell_override("FOO = bar ").unwrap();
    assert_eq!(k.as_str(), "FOO");
    assert_eq!(v, " bar ");
    assert_eq!(parse_shell_override("FOO").unwrap_err(), EnvError::OverrideMissingEquals);
}

#[test]
fn values_are_quoted_for_dotenv_and_shell() {
    assert_eq!(dotenv_quote("abc-1.2/x:y_z"), "abc-1.2/x:y_z");
    assert_eq!(dotenv_quote(""), "");
    assert_eq!(dotenv_quote("a b\"c\\d\n\r\t"), "\"a b\\\"c\\\\d\\n\\r\\t\"");
    assert_eq!(shell_quote("it's"), "'it'\\''s'");
    assert_eq!(shell_quote(""), "''");
}

fn secret(key: &str, value: &str, scope: Scope, root: Option<&str>) -> ResolvedSecret {
    ResolvedSecret {
        key: EnvKey::parse(key).unwrap(),
        value: value.to_string(),
        scope,
        project_root: root.map(|r| r.to_string()),
        profile: "default".to_string(),
    }
}

#[test]
fn get_and_list_print_their_lines() {
    let s = secret("API_KEY", "abcdefgh", Scope::Project, Some("/w/p"));
    assert_eq!(get_lines(&s, false, true), vec!["source: project (/w/p)", "API_KEY=ab***gh"]);
    assert_eq!(get_lines(&s, true, false), vec!["API_KEY=abcdefgh"]);
    let all = vec![s, secret("B", "x y", Scope::Global, None)];
    assert_eq!(
        list_lines(&all, ListStyle::Table, false),
        vec!["KEY\tSCOPE\tPROFILE\tVALUE", "API_KEY\tproject\tdefault\tab***gh", "B\tglobal\tdefault\t****"]
    );
    assert_eq!(list_lines(&all, ListStyle::Dotenv, true), vec!["API_KEY=abcdefgh", "B=\"x y\""]);
    assert_eq!(list_lines(&all, ListStyle::Shell, true), vec!["export API_KEY='abcdefgh'", "export B='x y'"]);
}

#[test]
fn workspace_and_doctor_print_their_lines() {
    assert_eq!(
        workspace_lines("age1xyz", Some("/w/p")),
        vec!["recipient: age1xyz", "active project: /w/p", "share format: age x25519 armored bundle"]
    );
    let report = DoctorReport {
        data_dir: "/d".to_string(),
        db_path: "/d/easyenv.sqlite".to_string(),
        active_project: None,
        checks: vec![DoctorCheck { name: "paths".into(), status: CheckStatus::Pass, message: "using /d".into() }],
    };
    assert_eq!(
        doctor_lines(&report, Some("never"), None),
        vec!["data dir: /d", "db path:  /d/easyenv.sqlite", "keychain global sync: never", "- Pass: paths \u{2014} using /d"]
    );
}

#[test]
fn commands_report_what_they_did() {
    let s = secret("API_KEY", "v", Scope::Project, Some("/w/p"));
    assert_eq!(stored_message(&s), "stored API_KEY in project scope (/w/p)");
    let p = ProjectRecord { id: "abc".into(), root_path: "/w/p".into(), name: "p".into(), created_at: 0 };
    assert_eq!(init_message(&p), "initialized project /w/p (abc)");
    let out = ImportOutcome { imported: 12, deleted_source: true, scope: Scope::Global, project_root: None };
    assert_eq!(imported_message(&out), "imported 12 variables into global scope; source deleted");
    let e = ShareExport { output_path: "share.age".into(), item_count: 1, recipient_count: 203 };
    assert_eq!(export_message(&e), "wrote encrypted share bundle share.age for 203 recipient(s) with 1 secret(s)");
    let i = ShareImport { sender: "age1abc".into(), item_count: 0, scope: Scope::Project };
    assert_eq!(pull_message(&i), "imported 0 shared secret(s) from age1abc into project scope");
}
