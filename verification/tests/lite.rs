use easyenv::error::EnvError;
use easyenv::lite::{
    dotenv_escape, explain_candidates, finish_listing, gitignore_update, listed_refs, mask,
    parse_assignment, parse_dotenv, profile_names, record_lines, resolve_scope, resolve_value,
    rotation_scope, scope_label, store_user, unquote, validate_key, ListFormat, LiteScope,
    ProjectFile, ScopeArg, SecretRecord, SecretRef, lookup_candidates, LiteStore,
};
use easyenv::store::StoreError;
use std::cell::RefCell;

/// A store holding a global value, counting its reads.
struct GlobalOnly {
    reads: RefCell<usize>,
}

impl LiteStore for GlobalOnly {
    fn get(&self, secret_ref: &SecretRef) -> Result<Option<String>, StoreError> {
        *self.reads.borrow_mut() += 1;
        Ok(match secret_ref.scope {
            LiteScope::Global => Some("global".to_string()),
            _ => None,
        })
    }
}

#[test]
fn lookups_stop_at_the_first_value_and_skip_the_store_for_shell_values() {
    let store = GlobalOnly { reads: RefCell::new(0) };
    let candidates = explain_candidates("FOO", "default", project());
    let found = lookup_candidates(&store, false, &candidates).unwrap();
    assert_eq!(found, vec![None, Some("global".to_string())]);
    assert_eq!(*store.reads.borrow(), 2);
    let globals = explain_candidates("FOO", "default", None);
    assert_eq!(lookup_candidates(&store, false, &globals).unwrap(), vec![Some("global".to_string())]);
    assert!(lookup_candidates(&store, true, &candidates).unwrap().is_empty());
    assert_eq!(*store.reads.borrow(), 3);
}

#[test]
fn parses_assignment() {
    assert_eq!(parse_assignment("FOO=bar").unwrap(), ("FOO", "bar"));
    assert!(parse_assignment("FOO").is_err());
}

#[test]
fn rejects_invalid_keys() {
    assert!(validate_key("OPENAI_API_KEY").is_ok());
    assert!(validate_key("1BAD").is_err());
    assert!(validate_key("BAD-KEY").is_err());
}

#[test]
fn parses_dotenv_file() {
    let values = parse_dotenv("FOO=bar\nexport BAZ=\"qux\"\n# comment\n").unwrap();
    assert_eq!(
        values,
        vec![
            ("FOO".to_owned(), "bar".to_owned()),
            ("BAZ".to_owned(), "qux".to_owned())
        ]
    );
}

#[test]
fn masks_values() {
    assert_eq!(mask("abcd"), "****");
    assert_eq!(mask("abcdef"), "**cdef");
}

#[test]
fn lite_rules_for_keys_assignments_and_quotes() {
    assert_eq!(validate_key("").unwrap_err(), EnvError::EmptyKey);
    assert_eq!(validate_key("9X").unwrap_err(), EnvError::KeyLeadingDigit);
    assert_eq!(validate_key("-X").unwrap_err(), EnvError::KeyBadChar);
    assert_eq!(parse_assignment("A=b=c").unwrap(), ("A", "b=c"));
    assert_eq!(parse_assignment("é=ü").unwrap(), ("é", "ü"));
    assert_eq!(parse_assignment("no").unwrap_err(), EnvError::AssignmentMissingEquals);
    assert_eq!(unquote("'x y'").unwrap(), "x y");
    assert_eq!(unquote("\"").unwrap_err(), EnvError::UnterminatedQuote);
    assert_eq!(unquote("plain").unwrap(), "plain");
    assert_eq!(parse_dotenv("A=1\nB\n").unwrap_err(), EnvError::DotenvMissingEquals(2));
    assert_eq!(parse_dotenv("export A =1\n").unwrap_err(), EnvError::KeyBadChar);
    assert_eq!(mask(""), "");
    assert_eq!(mask("ab"), "**");
}

#[test]
fn dotenv_escaping_uses_debug_quotes_when_needed() {
    assert_eq!(dotenv_escape("a-b_c./d:e"), "a-b_c./d:e");
    assert_eq!(dotenv_escape("two words"), "\"two words\"");
    assert_eq!(dotenv_escape("q\"\n"), "\"q\\\"\\n\"");
}

fn project() -> Option<(String, ProjectFile)> {
    Some(("/w/p".to_string(), ProjectFile { id: "prj_1".to_string(), name: "p".to_string() }))
}

#[test]
fn scopes_resolve_from_flags_and_project() {
    assert!(matches!(resolve_scope(true, false, project()).unwrap(), LiteScope::Global));
    assert!(matches!(resolve_scope(false, false, None).unwrap(), LiteScope::Global));
    assert_eq!(resolve_scope(false, true, None).unwrap_err(), EnvError::NotInProject);
    match resolve_scope(false, false, project()).unwrap() {
        LiteScope::Project { id, root } => {
            assert_eq!(id, "prj_1");
            assert_eq!(root, "/w/p");
        }
        _ => panic!("expected the project scope"),
    }
    let secret_ref = SecretRef {
        key: "K".to_string(),
        scope: LiteScope::Project { id: "prj_1".to_string(), root: "/w/p".to_string() },
        profile: "default".to_string(),
    };
    assert_eq!(store_user(&secret_ref), "default:project:prj_1:K");
    assert_eq!(scope_label(&secret_ref.scope), "project");
    assert!(matches!(
        rotation_scope(LiteScope::Shell, LiteScope::Global),
        LiteScope::Global
    ));
}

#[test]
fn resolution_prefers_shell_then_project_then_global() {
    let candidates = explain_candidates("FOO", "default", project());
    assert_eq!(candidates.len(), 2);
    assert!(matches!(candidates[1].scope, LiteScope::Global));

    let from_shell =
        resolve_value("FOO", Some("shell".to_string()), candidates.clone(), vec![]).unwrap();
    assert_eq!(from_shell.value, "shell");
    assert!(matches!(from_shell.source, LiteScope::Shell));

    let from_project = resolve_value(
        "FOO",
        None,
        candidates.clone(),
        vec![Some("project".to_string())],
    )
    .unwrap();
    assert!(matches!(from_project.source, LiteScope::Project { .. }));

    let from_global =
        resolve_value("FOO", None, candidates.clone(), vec![None, Some("global".to_string())])
            .unwrap();
    assert_eq!(from_global.value, "global");
    assert!(matches!(from_global.source, LiteScope::Global));

    assert_eq!(
        resolve_value("FOO", None, candidates, vec![None, None]).unwrap_err(),
        EnvError::NoValue("FOO".to_string())
    );
}

fn record(key: &str, value: &str, scope: LiteScope) -> SecretRecord {
    SecretRecord { key: key.to_string(), value: value.to_string(), scope, profile: "default".to_string() }
}

#[test]
fn listings_filter_add_shell_values_and_sort() {
    let entries = vec![
        SecretRef { key: "A".into(), scope: LiteScope::Global, profile: "default".into() },
        SecretRef {
            key: "B".into(),
            scope: LiteScope::Project { id: "prj_1".into(), root: "/w/p".into() },
            profile: "default".into(),
        },
        SecretRef {
            key: "C".into(),
            scope: LiteScope::Project { id: "other".into(), root: "/o".into() },
            profile: "default".into(),
        },
        SecretRef { key: "D".into(), scope: LiteScope::Global, profile: "prod".into() },
    ];
    let shown = listed_refs(&entries, "default", None, Some("prj_1"));
    let keys: Vec<&str> = shown.iter().map(|r| r.key.as_str()).collect();
    assert_eq!(keys, vec!["A", "B"]);
    let global_only = listed_refs(&entries, "default", Some(ScopeArg::Global), Some("prj_1"));
    assert_eq!(global_only.len(), 1);

    let records = vec![
        record("B", "pb", LiteScope::Project { id: "prj_1".into(), root: "/w/p".into() }),
        record("A", "ga", LiteScope::Global),
    ];
    let env = vec![
        ("A".to_string(), "shell-a".to_string()),
        ("PATH-LIKE".to_string(), "x".to_string()),
        ("AA".to_string(), "shell-aa".to_string()),
    ];
    let listed = finish_listing(records, &env, None, "default");
    let seen: Vec<(&str, &str)> = listed.iter().map(|r| (r.key.as_str(), r.value.as_str())).collect();
    assert_eq!(seen, vec![("A", "ga"), ("AA", "shell-aa"), ("B", "pb")]);

    let lines = record_lines(&listed, ListFormat::Dotenv, true);
    assert_eq!(lines, vec!["A=ga", "AA=shell-aa", "B=pb"]);
    let table = record_lines(&listed, ListFormat::Table, false);
    assert_eq!(table[0], format!("{:<32} {:<16} VALUE", "KEY", "SCOPE"));
    assert_eq!(table[1], format!("{:<32} {:<16} {}", "A", "global", "**"));
    let shell = record_lines(&vec![record("K", "it's", LiteScope::Global)], ListFormat::Shell, true);
    assert_eq!(shell, vec!["export K='it'\\''s'"]);
}

#[test]
fn gitignore_gets_one_line_per_import() {
    assert_eq!(gitignore_update("", ".env").unwrap(), "/.env\n");
    assert_eq!(gitignore_update("target", ".env").unwrap(), "target\n/.env\n");
    assert_eq!(gitignore_update("target\n", ".env").unwrap(), "target\n/.env\n");
    assert!(gitignore_update("a\r\n/.env\r\nb", ".env").is_none());
    assert!(gitignore_update("/.env", ".env").is_none());
}

#[test]
fn profiles_are_listed_once_in_order() {
    let entries = vec![
        SecretRef { key: "A".into(), scope: LiteScope::Global, profile: "prod".into() },
        SecretRef { key: "B".into(), scope: LiteScope::Global, profile: "default".into() },
        SecretRef { key: "C".into(), scope: LiteScope::Global, profile: "prod".into() },
    ];
    assert_eq!(profile_names("staging", &entries), vec!["default", "prod", "staging"]);
}
