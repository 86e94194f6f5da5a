use easyenv::domain::{EnvKey, ProjectRecord, Scope, VarMetadata};
use easyenv::error::EnvError;
use easyenv::metadata::{map_var, normalize_project_id, MetadataStore};

fn var(key: &str, scope: Scope, project_id: Option<&str>, at: i64) -> VarMetadata {
    VarMetadata {
        key: EnvKey::parse(key).unwrap(),
        scope,
        project_id: project_id.map(|p| p.to_string()),
        profile: "default".into(),
        updated_at: at,
        expires_at: None,
    }
}

#[test]
fn registers_and_finds_projects() {
    let mut store = MetadataStore::new("/tmp/x/easyenv.sqlite");
    let project = store.register_project("/tmp/x/repo").unwrap();
    let detected = store.find_project_for_dir("/tmp/x/repo/nested").unwrap();
    assert_eq!(detected.id, project.id);
    assert!(store.find_project_for_dir("/tmp/x").is_none());
    assert_eq!(store.get_project_by_root("/tmp/x/repo").unwrap(), project);
}

#[test]
fn project_scope_overrides_global_scope() {
    let mut store = MetadataStore::new("/tmp/x/easyenv.sqlite");
    let project = store.register_project("/tmp/x/repo").unwrap();
    let key = EnvKey::parse("OPENAI_API_KEY").unwrap();
    store.upsert_var(&var("OPENAI_API_KEY", Scope::Global, None, 1)).unwrap();
    store.upsert_var(&var("OPENAI_API_KEY", Scope::Project, Some(&project.id), 2)).unwrap();
    let visible = store.find_visible_var(&key, Some(&project.id), "default").unwrap();
    assert_eq!(visible.scope, Scope::Project);
    let from_outside = store.find_visible_var(&key, None, "default").unwrap();
    assert_eq!(from_outside.scope, Scope::Global);
}

#[test]
fn upserts_replace_rows_with_the_same_key() {
    let mut store = MetadataStore::new("/db");
    store.upsert_var(&var("A", Scope::Global, Some(""), 1)).unwrap();
    store.upsert_var(&var("A", Scope::Global, None, 5)).unwrap();
    assert_eq!(store.vars().len(), 1);
    let found = store.find_var(&EnvKey::parse("A").unwrap(), Scope::Global, None, "default").unwrap();
    assert_eq!(found.updated_at, 5);
    assert!(found.project_id.is_none());
    assert_eq!(
        store.upsert_var(&var("A", Scope::Shell, None, 1)).unwrap_err(),
        EnvError::ShellNotStored
    );
    let listed = store.list_scope(Scope::Global, None, "default");
    assert_eq!(listed.len(), 1);
}

#[test]
fn stored_rows_are_checked_when_loaded() {
    let p = ProjectRecord { id: "a".into(), root_path: "/a".into(), name: "a".into(), created_at: 0 };
    let q = ProjectRecord { id: "a".into(), root_path: "/b".into(), name: "b".into(), created_at: 0 };
    assert_eq!(
        MetadataStore::from_rows("/db", vec![p.clone(), q], vec![]).unwrap_err(),
        EnvError::CorruptMetadata
    );
    assert!(MetadataStore::from_rows("/db", vec![p], vec![var("A", Scope::Global, None, 1)]).is_ok());
    let m = map_var("project", "KEY", "", "default", 3, Some(9)).unwrap();
    assert_eq!(m.scope, Scope::Project);
    assert!(m.project_id.is_none());
    assert_eq!(m.expires_at, Some(9));
    assert!(matches!(map_var("nowhere", "KEY", "", "d", 0, None), Err(EnvError::InvalidScope(_))));
    assert_eq!(normalize_project_id(None), "");
    assert_eq!(normalize_project_id(Some("p1")), "p1");
}
